//! Euclidean distances over fixed-point coordinates.
//!
//! A distance is the Euclidean length rounded to the nearest integer in
//! the caller's fixed-point unit, computed with an exact integer square
//! root. Rounding to nearest is well defined: the square root of an
//! integer is never exactly halfway between two integers.

use vstd::prelude::*;
use crate::models::{
    City, TspInstance, wf_city, wf_instance, node_at, table_view, square_table, sym_table,
    wf_table, table_size_for, MAX_DIST, MAX_NODES,
};

verus! {

/// The integer square root, rounded down: the largest `s` with
/// `s * s <= v`.
pub open spec fn sqrt_floor(v: nat) -> nat
    decreases v,
{
    if v == 0 {
        0
    } else {
        let p = sqrt_floor((v - 1) as nat);
        if (p + 1) * (p + 1) <= v {
            p + 1
        } else {
            p
        }
    }
}

/// `sqrt_floor` is characterized by `s * s <= v < (s + 1) * (s + 1)`.
pub proof fn lemma_sqrt_floor_bounds(v: nat)
    ensures
        sqrt_floor(v) * sqrt_floor(v) <= v,
        v < (sqrt_floor(v) + 1) * (sqrt_floor(v) + 1),
    decreases v,
{
    if v == 0 {
        let f = sqrt_floor(v);
        assert(f == 0);
        assert((f + 1) * (f + 1) == 1) by (nonlinear_arith)
            requires f == 0;
        assert(v < (f + 1) * (f + 1));
    } else {
        lemma_sqrt_floor_bounds((v - 1) as nat);
        let p = sqrt_floor((v - 1) as nat);
        if (p + 1) * (p + 1) <= v {
            assert(sqrt_floor(v) == p + 1);
            assert(v - 1 < (p + 1) * (p + 1));
            assert(v == (p + 1) * (p + 1));
            assert((p + 1) * (p + 1) < (p + 2) * (p + 2)) by (nonlinear_arith);
            assert(v < (sqrt_floor(v) + 1) * (sqrt_floor(v) + 1));
        } else {
            assert(sqrt_floor(v) == p);
            assert(v < (sqrt_floor(v) + 1) * (sqrt_floor(v) + 1));
        }
    }
}

/// Any `s` within the floor-square-root bounds is the floor square root.
pub proof fn lemma_sqrt_floor_unique(v: nat, s: nat)
    requires
        s * s <= v,
        v < (s + 1) * (s + 1),
    ensures
        s == sqrt_floor(v),
{
    let f = sqrt_floor(v);
    lemma_sqrt_floor_bounds(v);
    if s < f {
        assert((s + 1) * (s + 1) <= f * f) by (nonlinear_arith)
            requires s + 1 <= f;
    }
    if f < s {
        assert((f + 1) * (f + 1) <= s * s) by (nonlinear_arith)
            requires f + 1 <= s;
    }
}

/// The integer square root rounded to the nearest integer: `v` is closer
/// to `s * s` than to `(s + 1) * (s + 1)` exactly when `v <= s * (s + 1)`.
pub open spec fn rounded_sqrt(v: nat) -> nat {
    let s = sqrt_floor(v);
    if v <= s * (s + 1) {
        s
    } else {
        s + 1
    }
}

/// Squaring, as a spec-level helper.
pub open spec fn sq(a: int) -> int {
    a * a
}

/// The squared Euclidean distance between two nodes.
pub open spec fn sq_dist(c1: City, c2: City) -> nat {
    (sq(c1.x - c2.x) + sq(c1.y - c2.y)) as nat
}

/// The rounded Euclidean distance between two nodes.
pub open spec fn euc_dist(c1: City, c2: City) -> nat {
    rounded_sqrt(sq_dist(c1, c2))
}

/// Euclidean distance is symmetric.
pub proof fn lemma_euc_dist_sym(c1: City, c2: City)
    ensures
        euc_dist(c1, c2) == euc_dist(c2, c1),
{
    assert(sq(c1.x - c2.x) == sq(c2.x - c1.x)) by (nonlinear_arith);
    assert(sq(c1.y - c2.y) == sq(c2.y - c1.y)) by (nonlinear_arith);
}

/// Euclidean distance from a node to itself is zero.
pub proof fn lemma_euc_dist_self(c: City)
    ensures
        euc_dist(c, c) == 0,
{
    assert(sq(0) == 0) by (nonlinear_arith);
    assert(sq_dist(c, c) == 0);
    assert(sqrt_floor(0) == 0);
}

/// Squares are non-negative.
proof fn lemma_sq_nonneg(a: int)
    ensures
        sq(a) >= 0,
{
    assert(a * a >= 0) by (nonlinear_arith);
}

/// Exact integer square root, rounded to the nearest integer, by binary
/// search on the floor square root.
fn isqrt_rounded(v: u64) -> (r: u64)
    ensures
        r as nat == rounded_sqrt(v as nat),
        r <= MAX_DIST,
{
    if v == 0 {
        proof {
            assert(sqrt_floor(0) == 0);
        }
        return 0;
    }
    let mut lo: u64 = 0;
    let mut hi: u64 = 0x1_0000_0000;
    proof {
        assert((0x1_0000_0000 as nat) * (0x1_0000_0000 as nat) == 0x1_0000_0000_0000_0000)
            by (nonlinear_arith);
    }
    while lo + 1 < hi
        invariant
            lo < hi <= 0x1_0000_0000,
            (lo as nat) * (lo as nat) <= v as nat,
            (v as nat) < (hi as nat) * (hi as nat),
        decreases hi - lo,
    {
        let mid: u64 = lo + (hi - lo) / 2;
        proof {
            assert(lo < mid < hi);
            assert((mid as nat) * (mid as nat) < 0x1_0000_0000_0000_0000) by (nonlinear_arith)
                requires (mid as nat) < 0x1_0000_0000;
        }
        if (mid as u128) * (mid as u128) <= v as u128 {
            lo = mid;
        } else {
            hi = mid;
        }
    }
    proof {
        assert(hi == lo + 1);
        lemma_sqrt_floor_unique(v as nat, lo as nat);
        assert((lo as nat) * (lo as nat) <= u64::MAX as nat);
    }
    let base: u64 = lo * lo;
    let rem: u64 = v - base;
    if rem > lo {
        proof {
            assert((v as nat) > (lo as nat) * ((lo as nat) + 1)) by (nonlinear_arith)
                requires
                    (v as nat) - (lo as nat) * (lo as nat) > lo as nat,
                    (lo as nat) * (lo as nat) <= v as nat;
        }
        lo + 1
    } else {
        proof {
            assert((v as nat) <= (lo as nat) * ((lo as nat) + 1)) by (nonlinear_arith)
                requires
                    (v as nat) - (lo as nat) * (lo as nat) <= lo as nat,
                    (lo as nat) * (lo as nat) <= v as nat;
        }
        lo
    }
}

/// Rounded Euclidean distance between two in-range nodes.
pub fn distance(city1: &City, city2: &City) -> (r: u64)
    requires
        wf_city(*city1),
        wf_city(*city2),
    ensures
        r as nat == euc_dist(*city1, *city2),
        r <= MAX_DIST,
{
    let dx: i64 = city1.x - city2.x;
    let dy: i64 = city1.y - city2.y;
    proof {
        lemma_sq_nonneg(dx as int);
        lemma_sq_nonneg(dy as int);
        assert(sq(dx as int) <= 0x4000_0000_0000_0000) by (nonlinear_arith)
            requires -0x8000_0000 <= dx as int <= 0x8000_0000;
        assert(sq(dy as int) <= 0x4000_0000_0000_0000) by (nonlinear_arith)
            requires -0x8000_0000 <= dy as int <= 0x8000_0000;
    }
    let dx2: u64 = (dx * dx) as u64;
    let dy2: u64 = (dy * dy) as u64;
    let s: u64 = dx2 + dy2;
    proof {
        assert(s as nat == sq_dist(*city1, *city2));
    }
    isqrt_rounded(s)
}

/// The distance table an instance determines: entry `[i][j]` is the
/// rounded Euclidean distance between nodes `i` and `j`.
pub open spec fn instance_table(inst: TspInstance) -> Seq<Seq<u64>> {
    Seq::new(
        (inst.cities.len() + 1) as nat,
        |i: int|
            Seq::new(
                (inst.cities.len() + 1) as nat,
                |j: int| euc_dist(node_at(inst, i), node_at(inst, j)) as u64,
            ),
    )
}

/// The table `d` holds, for every ordered pair of node indices of
/// `inst`, exactly the rounded Euclidean distance between the two nodes.
pub open spec fn euc_table(d: Seq<Seq<u64>>, inst: TspInstance) -> bool {
    &&& table_size_for(d, inst)
    &&& square_table(d)
    &&& forall|i: int, j: int|
        0 <= i < d.len() && 0 <= j < d.len() ==> (#[trigger] d[i][j]) as nat == euc_dist(
            node_at(inst, i),
            node_at(inst, j),
        )
}

/// Precompute the pairwise distance table over depot and cities: entry
/// `[i][j]` is the rounded Euclidean distance between nodes `i` and `j`.
/// The result is square, symmetric, zero on the diagonal, and
/// entry-bounded — a well-formed table for the tour algorithms.
pub fn build_distance_matrix(inst: &TspInstance) -> (d: Vec<Vec<u64>>)
    requires
        wf_instance(*inst),
    ensures
        wf_table(table_view(&d)),
        euc_table(table_view(&d), *inst),
        table_view(&d) == instance_table(*inst),
{
    let n: usize = inst.cities.len();
    let nn: usize = n + 1;
    let mut nodes: Vec<City> = Vec::new();
    nodes.push(inst.depot);
    let mut p: usize = 0;
    while p < n
        invariant
            0 <= p <= n,
            n == inst.cities.len(),
            nodes@.len() == p + 1,
            forall|q: int| 0 <= q <= p ==> nodes@[q] == node_at(*inst, q),
            wf_instance(*inst),
        decreases n - p,
    {
        nodes.push(inst.cities[p]);
        p = p + 1;
    }
    proof {
        assert forall|q: int| 0 <= q < nn implies wf_city(#[trigger] nodes@[q]) by {
            assert(nodes@[q] == node_at(*inst, q));
            if q > 0 {
                assert(wf_city(inst.cities[q - 1]));
            }
        }
    }
    let mut d: Vec<Vec<u64>> = Vec::new();
    let mut i: usize = 0;
    while i < nn
        invariant
            0 <= i <= nn,
            nn == n + 1,
            n == inst.cities.len(),
            nn <= MAX_NODES,
            nodes@.len() == nn,
            forall|q: int| 0 <= q < nn ==> nodes@[q] == node_at(*inst, q),
            forall|q: int| 0 <= q < nn ==> wf_city(#[trigger] nodes@[q]),
            wf_instance(*inst),
            d@.len() == i,
            forall|ii: int| 0 <= ii < i ==> (#[trigger] d@[ii]@).len() == nn,
            forall|ii: int, jj: int|
                0 <= ii < i && 0 <= jj < nn ==> (#[trigger] d@[ii]@[jj]) as nat == euc_dist(
                    node_at(*inst, ii),
                    node_at(*inst, jj),
                ),
            forall|ii: int, jj: int|
                0 <= ii < i && 0 <= jj < nn ==> (#[trigger] d@[ii]@[jj]) <= MAX_DIST,
        decreases nn - i,
    {
        let mut row: Vec<u64> = Vec::new();
        let mut j: usize = 0;
        while j < nn
            invariant
                0 <= j <= nn,
                i < nn,
                nn == nodes@.len(),
                forall|q: int| 0 <= q < nn ==> nodes@[q] == node_at(*inst, q),
                forall|q: int| 0 <= q < nn ==> wf_city(#[trigger] nodes@[q]),
                wf_instance(*inst),
                row@.len() == j,
                forall|jj: int|
                    0 <= jj < j ==> (#[trigger] row@[jj]) as nat == euc_dist(
                        node_at(*inst, i as int),
                        node_at(*inst, jj),
                    ),
                forall|jj: int| 0 <= jj < j ==> (#[trigger] row@[jj]) <= MAX_DIST,
            decreases nn - j,
        {
            let ci: City = nodes[i];
            let cj: City = nodes[j];
            let dij: u64 = distance(&ci, &cj);
            row.push(dij);
            j = j + 1;
        }
        d.push(row);
        i = i + 1;
    }
    proof {
        let dv = table_view(&d);
        assert(dv.len() == nn);
        assert forall|ii: int| 0 <= ii < dv.len() implies (#[trigger] dv[ii]).len() == dv.len() by {
            assert(dv[ii] == d@[ii]@);
        }
        assert forall|ii: int, jj: int|
            0 <= ii < dv.len() && 0 <= jj < dv.len() implies (#[trigger] dv[ii][jj]) as nat
            == euc_dist(node_at(*inst, ii), node_at(*inst, jj)) by {
            assert(dv[ii] == d@[ii]@);
        }
        assert forall|ii: int, jj: int|
            0 <= ii < dv.len() && 0 <= jj < dv.len() implies #[trigger] dv[ii][jj] == dv[jj][ii] by {
            lemma_euc_dist_sym(node_at(*inst, ii), node_at(*inst, jj));
        }
        assert forall|ii: int| 0 <= ii < dv.len() implies #[trigger] dv[ii][ii] == 0 by {
            lemma_euc_dist_self(node_at(*inst, ii));
        }
        assert forall|ii: int, jj: int|
            0 <= ii < dv.len() && 0 <= jj < dv.len() implies #[trigger] dv[ii][jj] <= MAX_DIST by {
            assert(dv[ii] == d@[ii]@);
        }
        let it = instance_table(*inst);
        assert(it.len() == dv.len());
        assert forall|ii: int| 0 <= ii < dv.len() implies #[trigger] dv[ii] == it[ii] by {
            assert(it[ii].len() == dv.len());
            assert(dv[ii].len() == dv.len());
            assert forall|jj: int| 0 <= jj < dv.len() implies dv[ii][jj] == #[trigger] it[ii][jj] by {
                assert(dv[ii][jj] as nat == euc_dist(node_at(*inst, ii), node_at(*inst, jj)));
                assert(dv[ii][jj] <= MAX_DIST);
            }
            assert(dv[ii] =~= it[ii]);
        }
        assert(dv =~= it);
    }
    d
}

} // verus!
