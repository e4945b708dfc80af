//! Tour construction and local-search improvement.
//!
//! `nearest_neighbor` builds an initial closed tour greedily; `two_opt`
//! and `three_opt` shorten it by edge exchanges until no considered move
//! improves it. All three work over a precomputed distance table.
//!
//! Distances are exact integers, so an exchange is accepted exactly when
//! it strictly shortens the tour; equal-cost exchanges are rejected,
//! which rules out the oscillation that a tolerance guards against in
//! inexact arithmetic.

use vstd::prelude::*;
use vstd::seq_lib::*;
use vstd::multiset::Multiset;
use crate::distance::{build_distance_matrix, instance_table};
use crate::models::{
    TspInstance, table_view, sym_table, wf_table, seg_len, indices_ok, valid_tour, city_seq,
    wf_instance, tour_distance, lemma_seg_len_concat, lemma_seg_len_reverse, MAX_DIST, MAX_NODES,
};

verus! {

/// The two tour edges removed by the 2-opt move at `(i, j)`:
/// `(t[i], t[i+1])` and `(t[j], t[j+1])`.
pub open spec fn removed2(d: Seq<Seq<u64>>, t: Seq<usize>, i: int, j: int) -> nat {
    (d[t[i] as int][t[i + 1] as int] as nat) + (d[t[j] as int][t[j + 1] as int] as nat)
}

/// The two edges a 2-opt move at `(i, j)` adds instead:
/// `(t[i], t[j])` and `(t[i+1], t[j+1])`.
pub open spec fn added2(d: Seq<Seq<u64>>, t: Seq<usize>, i: int, j: int) -> nat {
    (d[t[i] as int][t[j] as int] as nat) + (d[t[i + 1] as int][t[j + 1] as int] as nat)
}

/// `(i, j)` addresses two non-adjacent edges of `t`, neither move
/// endpoint past the closing depot position.
pub open spec fn pair_in_range(t: Seq<usize>, i: int, j: int) -> bool {
    0 <= i && i + 2 <= j && j + 1 <= t.len() - 1
}

/// No 2-opt move strictly improves `t`: the tour is 2-opt locally
/// optimal.
pub open spec fn two_opt_optimal(d: Seq<Seq<u64>>, t: Seq<usize>) -> bool {
    forall|i: int, j: int|
        pair_in_range(t, i, j) ==> #[trigger] added2(d, t, i, j) >= removed2(d, t, i, j)
}

/// The tour after the 2-opt move at `(i, j)`: the segment strictly
/// between the removed edges, positions `i+1 ..= j`, is reversed.
pub open spec fn apply2(t: Seq<usize>, i: int, j: int) -> Seq<usize> {
    t.subrange(0, i + 1) + t.subrange(i + 1, j + 1).reverse() + t.subrange(j + 1, t.len() as int)
}

/// Everything a 2-opt move does: the endpoints stay, positions outside
/// `i+1 ..= j` stay, that segment is reversed in place, the node
/// multiset is unchanged, and the length changes by exactly the
/// difference between added and removed edges.
pub proof fn lemma_apply2(d: Seq<Seq<u64>>, t: Seq<usize>, i: int, j: int)
    requires
        sym_table(d),
        indices_ok(d, t),
        pair_in_range(t, i, j),
    ensures
        apply2(t, i, j).len() == t.len(),
        forall|p: int| 0 <= p <= i ==> #[trigger] apply2(t, i, j)[p] == t[p],
        forall|p: int| i + 1 <= p <= j ==> #[trigger] apply2(t, i, j)[p] == t[i + 1 + j - p],
        forall|p: int| j + 1 <= p < t.len() ==> #[trigger] apply2(t, i, j)[p] == t[p],
        apply2(t, i, j).to_multiset() == t.to_multiset(),
        indices_ok(d, apply2(t, i, j)),
        seg_len(d, apply2(t, i, j)) + removed2(d, t, i, j) == seg_len(d, t) + added2(d, t, i, j),
{
    let len = t.len() as int;
    let pre = t.subrange(0, i + 1);
    let s = t.subrange(i + 1, j + 1);
    let suf = t.subrange(j + 1, len);
    let r = s.reverse();
    let u = apply2(t, i, j);
    assert(t =~= (pre + s) + suf);
    assert(u =~= (pre + r) + suf);
    assert(r.len() == s.len());
    // pointwise characterization
    assert forall|p: int| 0 <= p <= i implies #[trigger] u[p] == t[p] by {
        assert(u[p] == pre[p]);
    }
    assert forall|p: int| i + 1 <= p <= j implies #[trigger] u[p] == t[i + 1 + j - p] by {
        assert(u[p] == r[p - (i + 1)]);
        assert(r[p - (i + 1)] == s[s.len() - 1 - (p - i - 1)]);
        assert(s[j - p] == t[i + 1 + j - p]);
    }
    assert forall|p: int| j + 1 <= p < t.len() implies #[trigger] u[p] == t[p] by {
        assert(u[p] == suf[p - (j + 1)]);
    }
    // multiset preservation
    lemma_multiset_commutative(pre + s, suf);
    lemma_multiset_commutative(pre, s);
    lemma_multiset_commutative(pre + r, suf);
    lemma_multiset_commutative(pre, r);
    s.lemma_reverse_to_multiset();
    assert(u.to_multiset() =~= t.to_multiset());
    // index validity
    assert forall|p: int| 0 <= p < u.len() implies ((#[trigger] u[p]) as int) < d.len() by {
        if i + 1 <= p <= j {
            assert(u[p] == t[i + 1 + j - p]);
        }
    }
    // exact length change
    assert(indices_ok(d, s));
    lemma_seg_len_reverse(d, s);
    lemma_seg_len_concat(d, pre + s, suf);
    lemma_seg_len_concat(d, pre, s);
    lemma_seg_len_concat(d, pre + r, suf);
    lemma_seg_len_concat(d, pre, r);
    assert((pre + s).last() == s.last());
    assert((pre + r).last() == r.last());
    assert(pre.last() == t[i]);
    assert(s[0] == t[i + 1]);
    assert(s.last() == t[j]);
    assert(suf[0] == t[j + 1]);
    assert(r[0] == s[s.len() - 1]);
    assert(r.last() == s[0]);
    assert(seg_len(d, t) == seg_len(d, pre) + seg_len(d, s) + seg_len(d, suf)
        + (d[t[i] as int][t[i + 1] as int] as nat) + (d[t[j] as int][t[j + 1] as int] as nat));
    assert(seg_len(d, u) == seg_len(d, pre) + seg_len(d, s) + seg_len(d, suf)
        + (d[t[i] as int][t[j] as int] as nat) + (d[t[i + 1] as int][t[j + 1] as int] as nat));
}

/// Append `src[a .. b]` to `dst`, in order.
fn push_fwd(dst: &mut Vec<usize>, src: &Vec<usize>, a: usize, b: usize)
    requires
        a <= b <= src@.len(),
    ensures
        final(dst)@ == old(dst)@ + src@.subrange(a as int, b as int),
{
    let mut idx: usize = a;
    while idx < b
        invariant
            a <= idx <= b <= src@.len(),
            dst@ == old(dst)@ + src@.subrange(a as int, idx as int),
        decreases b - idx,
    {
        dst.push(src[idx]);
        proof {
            assert(src@.subrange(a as int, idx as int + 1)
                =~= src@.subrange(a as int, idx as int).push(src@[idx as int]));
        }
        idx = idx + 1;
    }
}

/// Append `src[a .. b]` to `dst`, in reverse order.
fn push_rev(dst: &mut Vec<usize>, src: &Vec<usize>, a: usize, b: usize)
    requires
        a <= b <= src@.len(),
    ensures
        final(dst)@ == old(dst)@ + src@.subrange(a as int, b as int).reverse(),
{
    let mut idx: usize = b;
    while idx > a
        invariant
            a <= idx <= b <= src@.len(),
            dst@ == old(dst)@ + src@.subrange(idx as int, b as int).reverse(),
        decreases idx - a,
    {
        idx = idx - 1;
        dst.push(src[idx]);
        proof {
            assert(src@.subrange(idx as int, b as int).reverse()
                =~= src@.subrange(idx as int + 1, b as int).reverse().push(src@[idx as int]));
        }
    }
}

/// Apply the 2-opt move at `(i, j)`: reverse tour positions `i+1 ..= j`.
fn apply_move2(tour: &mut Vec<usize>, i: usize, j: usize)
    requires
        pair_in_range(old(tour)@, i as int, j as int),
    ensures
        final(tour)@ == apply2(old(tour)@, i as int, j as int),
{
    let len: usize = tour.len();
    let mut next: Vec<usize> = Vec::new();
    push_fwd(&mut next, tour, 0, i + 1);
    push_rev(&mut next, tour, i + 1, j + 1);
    push_fwd(&mut next, tour, j + 1, len);
    proof {
        assert(next@ =~= apply2(old(tour)@, i as int, j as int));
    }
    *tour = next;
}

/// Scan all pairs for a 2-opt move that strictly shortens the tour.
/// Returns the first one found, or `None` exactly when the tour is
/// 2-opt locally optimal.
fn find_improving_pair(tour: &Vec<usize>, dist: &Vec<Vec<u64>>) -> (r: Option<(usize, usize)>)
    requires
        wf_table(table_view(dist)),
        indices_ok(table_view(dist), tour@),
    ensures
        match r {
            Some(p) => pair_in_range(tour@, p.0 as int, p.1 as int) && added2(
                table_view(dist),
                tour@,
                p.0 as int,
                p.1 as int,
            ) < removed2(table_view(dist), tour@, p.0 as int, p.1 as int),
            None => two_opt_optimal(table_view(dist), tour@),
        },
{
    let ghost d = table_view(dist);
    let ghost t = tour@;
    let n: usize = tour.len();
    if n < 4 {
        return None;
    }
    let mut i: usize = 0;
    while i < n - 3
        invariant
            d == table_view(dist),
            t == tour@,
            wf_table(d),
            indices_ok(d, t),
            n == t.len(),
            4 <= n,
            0 <= i <= n - 3,
            forall|i2: int, j2: int|
                pair_in_range(t, i2, j2) && i2 < i ==> #[trigger] added2(d, t, i2, j2)
                    >= removed2(d, t, i2, j2),
        decreases n - i,
    {
        let mut j: usize = i + 2;
        while j < n - 1
            invariant
                d == table_view(dist),
                t == tour@,
                wf_table(d),
                indices_ok(d, t),
                n == t.len(),
                4 <= n,
                0 <= i <= n - 4,
                i + 2 <= j <= n - 1,
                forall|i2: int, j2: int|
                    pair_in_range(t, i2, j2) && i2 < i ==> #[trigger] added2(d, t, i2, j2)
                        >= removed2(d, t, i2, j2),
                forall|j2: int|
                    i + 2 <= j2 < j ==> #[trigger] added2(d, t, i as int, j2)
                        >= removed2(d, t, i as int, j2),
            decreases n - j,
        {
            let a: usize = tour[i];
            let b: usize = tour[i + 1];
            let c: usize = tour[j];
            let e: usize = tour[j + 1];
            proof {
                assert(((t[i as int]) as int) < d.len());
                assert(((t[i as int + 1]) as int) < d.len());
                assert(((t[j as int]) as int) < d.len());
                assert(((t[j as int + 1]) as int) < d.len());
                assert(d[a as int] == dist@[a as int]@);
                assert(d[b as int] == dist@[b as int]@);
                assert(d[c as int] == dist@[c as int]@);
                assert(d[a as int].len() == d.len());
                assert(d[b as int].len() == d.len());
                assert(d[c as int].len() == d.len());
                assert(d[a as int][b as int] <= MAX_DIST);
                assert(d[c as int][e as int] <= MAX_DIST);
                assert(d[a as int][c as int] <= MAX_DIST);
                assert(d[b as int][e as int] <= MAX_DIST);
            }
            let removed: u64 = dist[a][b] + dist[c][e];
            let added: u64 = dist[a][c] + dist[b][e];
            if added < removed {
                return Some((i, j));
            }
            j = j + 1;
        }
        i = i + 1;
    }
    proof {
        assert forall|i2: int, j2: int|
            pair_in_range(t, i2, j2) implies #[trigger] added2(d, t, i2, j2)
            >= removed2(d, t, i2, j2) by {
            assert(i2 + 2 <= j2 && j2 + 1 <= t.len() - 1);
            assert(i2 < i);
        }
    }
    None
}

/// 2-opt local search, first improvement with restart: repeatedly find
/// a pair of non-adjacent edges whose exchange strictly shortens the
/// tour, reverse the enclosed segment, and rescan; stop when no pair
/// improves.
///
/// The result is a valid tour over the same cities, never longer than
/// the input, and 2-opt locally optimal; a tour that is already locally
/// optimal is returned unchanged — so a second run is a no-op.
pub fn two_opt(tour: &mut Vec<usize>, dist: &Vec<Vec<u64>>)
    requires
        wf_table(table_view(dist)),
        valid_tour(old(tour)@, (table_view(dist).len() - 1) as nat),
    ensures
        valid_tour(final(tour)@, (table_view(dist).len() - 1) as nat),
        seg_len(table_view(dist), final(tour)@) <= seg_len(table_view(dist), old(tour)@),
        two_opt_optimal(table_view(dist), final(tour)@),
        two_opt_optimal(table_view(dist), old(tour)@) ==> final(tour)@ == old(tour)@,
{
    let ghost d = table_view(dist);
    let ghost n = (d.len() - 1) as nat;
    proof {
        lemma_valid_tour_indices_ok(d, old(tour)@, n);
    }
    loop
        invariant
            d == table_view(dist),
            n == (d.len() - 1) as nat,
            wf_table(d),
            valid_tour(tour@, n),
            indices_ok(d, tour@),
            seg_len(d, tour@) <= seg_len(d, old(tour)@),
            two_opt_optimal(d, old(tour)@) ==> tour@ == old(tour)@,
        ensures
            valid_tour(tour@, n),
            seg_len(d, tour@) <= seg_len(d, old(tour)@),
            two_opt_optimal(d, tour@),
            two_opt_optimal(d, old(tour)@) ==> tour@ == old(tour)@,
        decreases seg_len(d, tour@),
    {
        let found = find_improving_pair(tour, dist);
        match found {
            None => {
                break;
            },
            Some((i, j)) => {
                let ghost pre = tour@;
                proof {
                    lemma_apply2(d, pre, i as int, j as int);
                    if two_opt_optimal(d, old(tour)@) {
                        assert(pre == old(tour)@);
                        assert(added2(d, pre, i as int, j as int)
                            >= removed2(d, pre, i as int, j as int));
                        assert(false);
                    }
                }
                apply_move2(tour, i, j);
                proof {
                    let u = tour@;
                    assert(u == apply2(pre, i as int, j as int));
                    assert(u[0] == pre[0]);
                    assert(u[n as int + 1] == pre[n as int + 1]);
                    assert forall|p: int| 0 <= p < u.len() implies ((#[trigger] u[p]) as nat)
                        <= n by {
                        if i + 1 <= p <= j {
                            assert(u[p] == pre[i + 1 + j - p]);
                        }
                    }
                    assert(valid_tour(u, n));
                }
            },
        }
    }
}


/// Table lookup with the table's well-formedness facts at hand.
fn entry(dist: &Vec<Vec<u64>>, a: usize, b: usize) -> (r: u64)
    requires
        wf_table(table_view(dist)),
        (a as int) < table_view(dist).len(),
        (b as int) < table_view(dist).len(),
    ensures
        r == table_view(dist)[a as int][b as int],
        r <= MAX_DIST,
{
    proof {
        assert(table_view(dist)[a as int] == dist@[a as int]@);
        assert(table_view(dist)[a as int].len() == table_view(dist).len());
        assert(table_view(dist)[a as int][b as int] <= MAX_DIST);
    }
    dist[a][b]
}

/// `(i, j, k)` addresses three edges of `t`, in order, none past the
/// closing depot position: `i < i+1 <= j < j+1 <= k < k+1 <= last`.
pub open spec fn triple_in_range(t: Seq<usize>, i: int, j: int, k: int) -> bool {
    0 <= i && i + 1 <= j && j + 1 <= k && k + 1 <= t.len() - 1
}

/// The three tour edges removed by a 3-opt move at `(i, j, k)`:
/// `(t[i], t[i+1])`, `(t[j], t[j+1])` and `(t[k], t[k+1])`.
pub open spec fn base3(d: Seq<Seq<u64>>, t: Seq<usize>, i: int, j: int, k: int) -> nat {
    (d[t[i] as int][t[i + 1] as int] as nat) + (d[t[j] as int][t[j + 1] as int] as nat)
        + (d[t[k] as int][t[k + 1] as int] as nat)
}

/// The three edges reconnection variant `v` (0 through 6) adds instead.
/// With `a..f` the six endpoints `t[i], t[i+1], t[j], t[j+1], t[k],
/// t[k+1]`, the variants are the seven non-identity ways to re-thread
/// the two enclosed segments (reverse either, both, swap them, or swap
/// and reverse).
pub open spec fn cost3(d: Seq<Seq<u64>>, t: Seq<usize>, i: int, j: int, k: int, v: int) -> nat {
    let a = t[i] as int;
    let b = t[i + 1] as int;
    let c = t[j] as int;
    let dd = t[j + 1] as int;
    let e = t[k] as int;
    let f = t[k + 1] as int;
    if v == 0 {
        (d[a][c] as nat) + (d[b][dd] as nat) + (d[e][f] as nat)
    } else if v == 1 {
        (d[a][b] as nat) + (d[c][e] as nat) + (d[dd][f] as nat)
    } else if v == 2 {
        (d[a][c] as nat) + (d[b][e] as nat) + (d[dd][f] as nat)
    } else if v == 3 {
        (d[a][dd] as nat) + (d[e][b] as nat) + (d[c][f] as nat)
    } else if v == 4 {
        (d[a][dd] as nat) + (d[e][c] as nat) + (d[b][f] as nat)
    } else if v == 5 {
        (d[a][e] as nat) + (d[dd][b] as nat) + (d[c][f] as nat)
    } else {
        (d[a][e] as nat) + (d[dd][c] as nat) + (d[b][f] as nat)
    }
}

/// The re-threaded middle of the tour: segments `s1` (old positions
/// `i+1 ..= j`) and `s2` (old positions `j+1 ..= k`) recombined
/// according to variant `v`.
pub open spec fn mid3(s1: Seq<usize>, s2: Seq<usize>, v: int) -> Seq<usize> {
    if v == 0 {
        s1.reverse() + s2
    } else if v == 1 {
        s1 + s2.reverse()
    } else if v == 2 {
        s1.reverse() + s2.reverse()
    } else if v == 3 {
        s2 + s1
    } else if v == 4 {
        s2 + s1.reverse()
    } else if v == 5 {
        s2.reverse() + s1
    } else {
        s2.reverse() + s1.reverse()
    }
}

/// The tour after the 3-opt move at `(i, j, k)` with variant `v`.
pub open spec fn apply3(t: Seq<usize>, i: int, j: int, k: int, v: int) -> Seq<usize> {
    t.subrange(0, i + 1) + mid3(t.subrange(i + 1, j + 1), t.subrange(j + 1, k + 1), v)
        + t.subrange(k + 1, t.len() as int)
}

/// No 3-opt reconnection strictly improves `t`: the tour is 3-opt
/// locally optimal.
pub open spec fn three_opt_optimal(d: Seq<Seq<u64>>, t: Seq<usize>) -> bool {
    forall|i: int, j: int, k: int, v: int|
        triple_in_range(t, i, j, k) && 0 <= v <= 6 ==> #[trigger] cost3(d, t, i, j, k, v)
            >= base3(d, t, i, j, k)
}

/// Everything a 3-opt move does: endpoints stay, the node multiset is
/// unchanged, every node of the new tour comes from the old one, and
/// the length changes by exactly the difference between the added and
/// the removed three edges.
pub proof fn lemma_apply3(d: Seq<Seq<u64>>, t: Seq<usize>, i: int, j: int, k: int, v: int)
    requires
        sym_table(d),
        indices_ok(d, t),
        triple_in_range(t, i, j, k),
        0 <= v <= 6,
    ensures
        apply3(t, i, j, k, v).len() == t.len(),
        apply3(t, i, j, k, v)[0] == t[0],
        apply3(t, i, j, k, v)[t.len() - 1] == t[t.len() - 1],
        apply3(t, i, j, k, v).to_multiset() == t.to_multiset(),
        indices_ok(d, apply3(t, i, j, k, v)),
        forall|p: int|
            0 <= p < t.len() ==> exists|q: int|
                0 <= q < t.len() && #[trigger] apply3(t, i, j, k, v)[p] == t[q],
        seg_len(d, apply3(t, i, j, k, v)) + base3(d, t, i, j, k) == seg_len(d, t) + cost3(
            d,
            t,
            i,
            j,
            k,
            v,
        ),
{
    broadcast use vstd::multiset::group_multiset_axioms;

    let len = t.len() as int;
    let pre = t.subrange(0, i + 1);
    let s1 = t.subrange(i + 1, j + 1);
    let s2 = t.subrange(j + 1, k + 1);
    let suf = t.subrange(k + 1, len);
    let mid = mid3(s1, s2, v);
    let u = apply3(t, i, j, k, v);
    let a = t[i] as int;
    let b = t[i + 1] as int;
    let c = t[j] as int;
    let dd = t[j + 1] as int;
    let e = t[k] as int;
    let f = t[k + 1] as int;
    assert(t =~= ((pre + s1) + s2) + suf);
    assert(pre.len() == i + 1);
    assert(s1.len() == j - i);
    assert(s2.len() == k - j);
    assert(suf.len() == len - k - 1);
    assert(indices_ok(d, s1));
    assert(indices_ok(d, s2));
    assert(pre.last() == t[i]);
    assert(s1[0] == t[i + 1]);
    assert(s1.last() == t[j]);
    assert(s2[0] == t[j + 1]);
    assert(s2.last() == t[k]);
    assert(suf[0] == t[k + 1]);
    // length of the tour before the move
    lemma_seg_len_concat(d, (pre + s1) + s2, suf);
    lemma_seg_len_concat(d, pre + s1, s2);
    lemma_seg_len_concat(d, pre, s1);
    assert(((pre + s1) + s2).last() == s2.last());
    assert((pre + s1).last() == s1.last());
    assert(seg_len(d, t) == seg_len(d, pre) + seg_len(d, s1) + seg_len(d, s2) + seg_len(d, suf)
        + (d[a][b] as nat) + (d[c][dd] as nat) + (d[e][f] as nat));
    // length of the reordered middle
    lemma_seg_len_reverse(d, s1);
    lemma_seg_len_reverse(d, s2);
    s1.lemma_reverse_to_multiset();
    s2.lemma_reverse_to_multiset();
    let r1 = s1.reverse();
    let r2 = s2.reverse();
    assert(r1[0] == t[j] && r1.last() == t[i + 1]);
    assert(r2[0] == t[k] && r2.last() == t[j + 1]);
    if v == 0 {
        lemma_seg_len_concat(d, r1, s2);
        lemma_multiset_commutative(r1, s2);
    } else if v == 1 {
        lemma_seg_len_concat(d, s1, r2);
        lemma_multiset_commutative(s1, r2);
    } else if v == 2 {
        lemma_seg_len_concat(d, r1, r2);
        lemma_multiset_commutative(r1, r2);
    } else if v == 3 {
        lemma_seg_len_concat(d, s2, s1);
        lemma_multiset_commutative(s2, s1);
    } else if v == 4 {
        lemma_seg_len_concat(d, s2, r1);
        lemma_multiset_commutative(s2, r1);
    } else if v == 5 {
        lemma_seg_len_concat(d, r2, s1);
        lemma_multiset_commutative(r2, s1);
    } else {
        lemma_seg_len_concat(d, r2, r1);
        lemma_multiset_commutative(r2, r1);
    }
    assert(mid.len() == s1.len() + s2.len());
    assert(seg_len(d, mid) + (d[a][mid[0] as int] as nat) + (d[mid.last() as int][f] as nat)
        == seg_len(d, s1) + seg_len(d, s2) + cost3(d, t, i, j, k, v)) by {
        assert(d[c][dd] == d[dd][c]);
        assert(d[b][dd] == d[dd][b]);
        assert(d[c][e] == d[e][c]);
        assert(d[b][e] == d[e][b]);
    }
    assert(mid.to_multiset() =~= (s1 + s2).to_multiset()) by {
        lemma_multiset_commutative(s1, s2);
    }
    // length of the new tour
    assert(u =~= (pre + mid) + suf);
    lemma_seg_len_concat(d, pre + mid, suf);
    lemma_seg_len_concat(d, pre, mid);
    assert((pre + mid).last() == mid.last());
    assert(seg_len(d, u) == seg_len(d, pre) + seg_len(d, mid) + seg_len(d, suf)
        + (d[a][mid[0] as int] as nat) + (d[mid.last() as int][f] as nat));
    // multiset preservation
    lemma_multiset_commutative((pre + s1) + s2, suf);
    lemma_multiset_commutative(pre + s1, s2);
    lemma_multiset_commutative(pre, s1);
    lemma_multiset_commutative(pre + mid, suf);
    lemma_multiset_commutative(pre, mid);
    assert(u.to_multiset() =~= t.to_multiset());
    // endpoints
    assert(u[0] == pre[0]);
    assert(u.len() == t.len());
    assert(u[len - 1] == suf[suf.len() - 1]);
    // membership and index validity
    broadcast use vstd::seq_lib::group_seq_properties;

    assert forall|p: int| 0 <= p < t.len() implies exists|q: int|
        0 <= q < t.len() && #[trigger] u[p] == t[q] by {
        assert(u.contains(u[p]));
        assert(u.to_multiset().count(u[p]) > 0);
        assert(t.to_multiset().count(u[p]) > 0);
        assert(t.contains(u[p]));
    }
    assert forall|p: int| 0 <= p < u.len() implies ((#[trigger] u[p]) as int) < d.len() by {
        let q = choose|q: int| 0 <= q < t.len() && u[p] == t[q];
        assert(((t[q]) as int) < d.len());
    }
}


/// Apply the 3-opt move at `(i, j, k)` with variant `v`: rebuild
/// positions `i+1 ..= k` from the two enclosed segments in the
/// variant's order and orientation.
fn apply_move3(tour: &mut Vec<usize>, i: usize, j: usize, k: usize, v: u8)
    requires
        triple_in_range(old(tour)@, i as int, j as int, k as int),
        v <= 6,
    ensures
        final(tour)@ == apply3(old(tour)@, i as int, j as int, k as int, v as int),
{
    let len: usize = tour.len();
    let mut next: Vec<usize> = Vec::new();
    push_fwd(&mut next, tour, 0, i + 1);
    if v == 0 {
        push_rev(&mut next, tour, i + 1, j + 1);
        push_fwd(&mut next, tour, j + 1, k + 1);
    } else if v == 1 {
        push_fwd(&mut next, tour, i + 1, j + 1);
        push_rev(&mut next, tour, j + 1, k + 1);
    } else if v == 2 {
        push_rev(&mut next, tour, i + 1, j + 1);
        push_rev(&mut next, tour, j + 1, k + 1);
    } else if v == 3 {
        push_fwd(&mut next, tour, j + 1, k + 1);
        push_fwd(&mut next, tour, i + 1, j + 1);
    } else if v == 4 {
        push_fwd(&mut next, tour, j + 1, k + 1);
        push_rev(&mut next, tour, i + 1, j + 1);
    } else if v == 5 {
        push_rev(&mut next, tour, j + 1, k + 1);
        push_fwd(&mut next, tour, i + 1, j + 1);
    } else {
        push_rev(&mut next, tour, j + 1, k + 1);
        push_rev(&mut next, tour, i + 1, j + 1);
    }
    push_fwd(&mut next, tour, k + 1, len);
    proof {
        assert(next@ =~= apply3(old(tour)@, i as int, j as int, k as int, v as int));
    }
    *tour = next;
}

/// Scan all triples for a 3-opt reconnection that strictly shortens the
/// tour. For each triple the cheapest of the seven variants is taken
/// (ties to the lowest variant number); the scan returns the first
/// triple whose best variant improves, or `None` exactly when the tour
/// is 3-opt locally optimal.
fn find_improving_triple(tour: &Vec<usize>, dist: &Vec<Vec<u64>>) -> (r: Option<
    (usize, usize, usize, u8),
>)
    requires
        wf_table(table_view(dist)),
        indices_ok(table_view(dist), tour@),
    ensures
        match r {
            Some(m) => {
                &&& triple_in_range(tour@, m.0 as int, m.1 as int, m.2 as int)
                &&& m.3 <= 6
                &&& cost3(table_view(dist), tour@, m.0 as int, m.1 as int, m.2 as int, m.3 as int)
                    < base3(table_view(dist), tour@, m.0 as int, m.1 as int, m.2 as int)
                &&& forall|v2: int|
                    0 <= v2 <= 6 ==> cost3(
                        table_view(dist),
                        tour@,
                        m.0 as int,
                        m.1 as int,
                        m.2 as int,
                        m.3 as int,
                    ) <= #[trigger] cost3(
                        table_view(dist),
                        tour@,
                        m.0 as int,
                        m.1 as int,
                        m.2 as int,
                        v2,
                    )
            },
            None => three_opt_optimal(table_view(dist), tour@),
        },
{
    let ghost d = table_view(dist);
    let ghost t = tour@;
    let n: usize = tour.len();
    if n < 4 {
        return None;
    }
    let mut i: usize = 0;
    while i < n - 3
        invariant
            d == table_view(dist),
            t == tour@,
            wf_table(d),
            indices_ok(d, t),
            n == t.len(),
            4 <= n,
            0 <= i <= n - 3,
            forall|i2: int, j2: int, k2: int, v2: int|
                triple_in_range(t, i2, j2, k2) && 0 <= v2 <= 6 && i2 < i
                    ==> #[trigger] cost3(d, t, i2, j2, k2, v2) >= base3(d, t, i2, j2, k2),
        decreases n - i,
    {
        let mut j: usize = i + 1;
        while j < n - 2
            invariant
                d == table_view(dist),
                t == tour@,
                wf_table(d),
                indices_ok(d, t),
                n == t.len(),
                4 <= n,
                0 <= i <= n - 4,
                i + 1 <= j <= n - 2,
                forall|i2: int, j2: int, k2: int, v2: int|
                    triple_in_range(t, i2, j2, k2) && 0 <= v2 <= 6 && i2 < i
                        ==> #[trigger] cost3(d, t, i2, j2, k2, v2) >= base3(d, t, i2, j2, k2),
                forall|j2: int, k2: int, v2: int|
                    triple_in_range(t, i as int, j2, k2) && 0 <= v2 <= 6 && j2 < j
                        ==> #[trigger] cost3(d, t, i as int, j2, k2, v2)
                            >= base3(d, t, i as int, j2, k2),
            decreases n - j,
        {
            let mut k: usize = j + 1;
            while k < n - 1
                invariant
                    d == table_view(dist),
                    t == tour@,
                    wf_table(d),
                    indices_ok(d, t),
                    n == t.len(),
                    4 <= n,
                    0 <= i <= n - 4,
                    i + 1 <= j <= n - 3,
                    j + 1 <= k <= n - 1,
                    forall|i2: int, j2: int, k2: int, v2: int|
                        triple_in_range(t, i2, j2, k2) && 0 <= v2 <= 6 && i2 < i
                            ==> #[trigger] cost3(d, t, i2, j2, k2, v2) >= base3(d, t, i2, j2, k2),
                    forall|j2: int, k2: int, v2: int|
                        triple_in_range(t, i as int, j2, k2) && 0 <= v2 <= 6 && j2 < j
                            ==> #[trigger] cost3(d, t, i as int, j2, k2, v2)
                                >= base3(d, t, i as int, j2, k2),
                    forall|k2: int, v2: int|
                        triple_in_range(t, i as int, j as int, k2) && 0 <= v2 <= 6 && k2 < k
                            ==> #[trigger] cost3(d, t, i as int, j as int, k2, v2)
                                >= base3(d, t, i as int, j as int, k2),
                decreases n - k,
            {
                let a: usize = tour[i];
                let b: usize = tour[i + 1];
                let c: usize = tour[j];
                let dd: usize = tour[j + 1];
                let e: usize = tour[k];
                let f: usize = tour[k + 1];
                proof {
                    assert(((t[i as int]) as int) < d.len());
                    assert(((t[i as int + 1]) as int) < d.len());
                    assert(((t[j as int]) as int) < d.len());
                    assert(((t[j as int + 1]) as int) < d.len());
                    assert(((t[k as int]) as int) < d.len());
                    assert(((t[k as int + 1]) as int) < d.len());
                }
                let base: u64 = entry(dist, a, b) + entry(dist, c, dd) + entry(dist, e, f);
                let c0: u64 = entry(dist, a, c) + entry(dist, b, dd) + entry(dist, e, f);
                let c1: u64 = entry(dist, a, b) + entry(dist, c, e) + entry(dist, dd, f);
                let c2: u64 = entry(dist, a, c) + entry(dist, b, e) + entry(dist, dd, f);
                let c3: u64 = entry(dist, a, dd) + entry(dist, e, b) + entry(dist, c, f);
                let c4: u64 = entry(dist, a, dd) + entry(dist, e, c) + entry(dist, b, f);
                let c5: u64 = entry(dist, a, e) + entry(dist, dd, b) + entry(dist, c, f);
                let c6: u64 = entry(dist, a, e) + entry(dist, dd, c) + entry(dist, b, f);
                proof {
                    assert(base as nat == base3(d, t, i as int, j as int, k as int));
                    assert(c0 as nat == cost3(d, t, i as int, j as int, k as int, 0));
                    assert(c1 as nat == cost3(d, t, i as int, j as int, k as int, 1));
                    assert(c2 as nat == cost3(d, t, i as int, j as int, k as int, 2));
                    assert(c3 as nat == cost3(d, t, i as int, j as int, k as int, 3));
                    assert(c4 as nat == cost3(d, t, i as int, j as int, k as int, 4));
                    assert(c5 as nat == cost3(d, t, i as int, j as int, k as int, 5));
                    assert(c6 as nat == cost3(d, t, i as int, j as int, k as int, 6));
                }
                let mut best: u64 = c0;
                let mut bestv: u8 = 0;
                if c1 < best {
                    best = c1;
                    bestv = 1;
                }
                if c2 < best {
                    best = c2;
                    bestv = 2;
                }
                if c3 < best {
                    best = c3;
                    bestv = 3;
                }
                if c4 < best {
                    best = c4;
                    bestv = 4;
                }
                if c5 < best {
                    best = c5;
                    bestv = 5;
                }
                if c6 < best {
                    best = c6;
                    bestv = 6;
                }
                if best < base {
                    proof {
                        assert(best as nat == cost3(
                            d, t, i as int, j as int, k as int, bestv as int));
                        assert forall|v2: int| 0 <= v2 <= 6 implies best as nat
                            <= #[trigger] cost3(d, t, i as int, j as int, k as int, v2) by {
                        }
                    }
                    return Some((i, j, k, bestv));
                }
                k = k + 1;
            }
            j = j + 1;
        }
        i = i + 1;
    }
    proof {
        assert forall|i2: int, j2: int, k2: int, v2: int|
            triple_in_range(t, i2, j2, k2) && 0 <= v2 <= 6 implies #[trigger] cost3(
            d, t, i2, j2, k2, v2) >= base3(d, t, i2, j2, k2) by {
            assert(k2 + 1 <= t.len() - 1);
            assert(i2 < i);
        }
    }
    None
}

/// 3-opt local search, first improvement with restart: repeatedly find
/// a triple of edges with a reconnection variant that strictly shortens
/// the tour, apply the cheapest variant, and rescan; stop when no
/// reconnection improves.
///
/// The result is a valid tour over the same cities, never longer than
/// the input, and 3-opt locally optimal; a tour that is already locally
/// optimal is returned unchanged — so a second run is a no-op.
pub fn three_opt(tour: &mut Vec<usize>, dist: &Vec<Vec<u64>>)
    requires
        wf_table(table_view(dist)),
        valid_tour(old(tour)@, (table_view(dist).len() - 1) as nat),
    ensures
        valid_tour(final(tour)@, (table_view(dist).len() - 1) as nat),
        seg_len(table_view(dist), final(tour)@) <= seg_len(table_view(dist), old(tour)@),
        three_opt_optimal(table_view(dist), final(tour)@),
        three_opt_optimal(table_view(dist), old(tour)@) ==> final(tour)@ == old(tour)@,
{
    let ghost d = table_view(dist);
    let ghost n = (d.len() - 1) as nat;
    proof {
        lemma_valid_tour_indices_ok(d, old(tour)@, n);
    }
    loop
        invariant
            d == table_view(dist),
            n == (d.len() - 1) as nat,
            wf_table(d),
            valid_tour(tour@, n),
            indices_ok(d, tour@),
            seg_len(d, tour@) <= seg_len(d, old(tour)@),
            three_opt_optimal(d, old(tour)@) ==> tour@ == old(tour)@,
        ensures
            valid_tour(tour@, n),
            seg_len(d, tour@) <= seg_len(d, old(tour)@),
            three_opt_optimal(d, tour@),
            three_opt_optimal(d, old(tour)@) ==> tour@ == old(tour)@,
        decreases seg_len(d, tour@),
    {
        let found = find_improving_triple(tour, dist);
        match found {
            None => {
                break;
            },
            Some((i, j, k, v)) => {
                let ghost pre = tour@;
                proof {
                    lemma_apply3(d, pre, i as int, j as int, k as int, v as int);
                    if three_opt_optimal(d, old(tour)@) {
                        assert(pre == old(tour)@);
                        assert(cost3(d, pre, i as int, j as int, k as int, v as int)
                            >= base3(d, pre, i as int, j as int, k as int));
                        assert(false);
                    }
                }
                apply_move3(tour, i, j, k, v);
                proof {
                    let u = tour@;
                    assert(u == apply3(pre, i as int, j as int, k as int, v as int));
                    assert(u[0] == pre[0]);
                    assert(u[n as int + 1] == pre[n as int + 1]);
                    assert forall|p: int| 0 <= p < u.len() implies ((#[trigger] u[p]) as nat)
                        <= n by {
                        let q = choose|q: int| 0 <= q < pre.len() && u[p] == pre[q];
                        assert(((pre[q]) as nat) <= n);
                    }
                    assert(valid_tour(u, n));
                }
            },
        }
    }
}


/// The greedy pick: the candidate nearest to `cur`, scanning `cands`
/// left to right and keeping the first of equally near candidates
/// (strict comparison: a later candidate wins only by being strictly
/// nearer).
pub open spec fn argmin_from(d: Seq<Seq<u64>>, cur: usize, cands: Seq<usize>) -> usize
    recommends
        cands.len() >= 1,
    decreases cands.len(),
{
    if cands.len() <= 1 {
        cands[0]
    } else {
        let prev = argmin_from(d, cur, cands.drop_last());
        if d[cur as int][cands.last() as int] < d[cur as int][prev as int] {
            cands.last()
        } else {
            prev
        }
    }
}

/// The greedy pick is one of the candidates.
pub proof fn lemma_argmin_in(d: Seq<Seq<u64>>, cur: usize, cands: Seq<usize>)
    requires
        cands.len() >= 1,
    ensures
        cands.contains(argmin_from(d, cur, cands)),
    decreases cands.len(),
{
    if cands.len() == 1 {
        assert(argmin_from(d, cur, cands) == cands[0]);
    } else {
        lemma_argmin_in(d, cur, cands.drop_last());
        let prev = argmin_from(d, cur, cands.drop_last());
        let q = choose|q: int| 0 <= q < cands.drop_last().len() && cands.drop_last()[q] == prev;
        assert(cands[q] == prev);
        assert(cands[cands.len() - 1] == cands.last());
    }
}

/// The order in which the greedy construction visits the candidate
/// cities, starting from node `cur`: repeatedly take the nearest
/// remaining candidate and continue from it.
pub open spec fn nn_order(d: Seq<Seq<u64>>, cur: usize, cands: Seq<usize>) -> Seq<usize>
    decreases cands.len(),
    via nn_order_decreases
{
    if cands.len() == 0 {
        Seq::empty()
    } else {
        let pick = argmin_from(d, cur, cands);
        seq![pick] + nn_order(d, pick, cands.remove_value(pick))
    }
}

#[via_fn]
proof fn nn_order_decreases(d: Seq<Seq<u64>>, cur: usize, cands: Seq<usize>) {
    if cands.len() > 0 {
        lemma_argmin_in(d, cur, cands);
        let pick = argmin_from(d, cur, cands);
        cands.index_of_first_ensures(pick);
        match cands.index_of_first(pick) {
            Some(idx) => {
                cands.remove_ensures(idx);
            },
            None => {},
        }
    }
}

/// Position and value of the nearest candidate to `cur`, first-seen
/// minimum winning.
fn find_nearest(dist: &Vec<Vec<u64>>, cur: usize, unvisited: &Vec<usize>) -> (r: (usize, usize))
    requires
        wf_table(table_view(dist)),
        (cur as int) < table_view(dist).len(),
        unvisited@.len() >= 1,
        indices_ok(table_view(dist), unvisited@),
    ensures
        (r.0 as int) < unvisited@.len(),
        unvisited@[r.0 as int] == r.1,
        r.1 == argmin_from(table_view(dist), cur, unvisited@),
{
    let ghost d = table_view(dist);
    let mut best: usize = unvisited[0];
    let mut bestpos: usize = 0;
    let mut p: usize = 1;
    proof {
        assert(unvisited@.take(1).len() == 1);
        assert(unvisited@.take(1)[0] == unvisited@[0]);
        assert(argmin_from(d, cur, unvisited@.take(1)) == unvisited@[0]);
    }
    while p < unvisited.len()
        invariant
            d == table_view(dist),
            wf_table(d),
            (cur as int) < d.len(),
            indices_ok(d, unvisited@),
            1 <= p <= unvisited@.len(),
            (bestpos as int) < p,
            unvisited@[bestpos as int] == best,
            best == argmin_from(d, cur, unvisited@.take(p as int)),
        decreases unvisited@.len() - p,
    {
        let cand: usize = unvisited[p];
        let dc: u64 = entry(dist, cur, cand);
        let db: u64 = entry(dist, cur, best);
        proof {
            let tk = unvisited@.take(p as int + 1);
            assert(tk.drop_last() =~= unvisited@.take(p as int));
            assert(tk.last() == unvisited@[p as int]);
            assert(tk.len() >= 2);
            if dc < db {
                assert(argmin_from(d, cur, tk) == tk.last());
            } else {
                assert(argmin_from(d, cur, tk) == argmin_from(d, cur, tk.drop_last()));
            }
        }
        if dc < db {
            best = cand;
            bestpos = p;
        }
        p = p + 1;
    }
    proof {
        assert(unvisited@.take(unvisited@.len() as int) =~= unvisited@);
    }
    (bestpos, best)
}

/// Nearest-neighbor construction: starting at the depot, repeatedly
/// travel to the nearest unvisited city (first-seen minimum on ties,
/// i.e. the lowest city index among equally near ones), then return to
/// the depot.
///
/// The result is exactly the closed tour `0, nn_order(...), 0` — the
/// greedy visiting order over the cities — and is a valid tour; zero
/// cities yield the degenerate tour `[0, 0]`.
pub fn nearest_neighbor(inst: &TspInstance, dist: &Vec<Vec<u64>>) -> (tour: Vec<usize>)
    requires
        wf_table(table_view(dist)),
        table_view(dist).len() == inst.cities@.len() + 1,
    ensures
        valid_tour(tour@, inst.cities@.len()),
        tour@ == seq![0usize] + nn_order(table_view(dist), 0, city_seq(inst.cities@.len()))
            + seq![0usize],
{
    broadcast use vstd::multiset::group_multiset_axioms;

    let ghost d = table_view(dist);
    let n: usize = inst.cities.len();
    let ghost full = nn_order(d, 0, city_seq(n as nat));
    let mut tour: Vec<usize> = Vec::new();
    tour.push(0);
    let mut unvisited: Vec<usize> = Vec::new();
    let mut p: usize = 0;
    proof {
        assert(n + 1 <= MAX_NODES);
        assert(unvisited@ =~= city_seq(0));
    }
    while p < n
        invariant
            0 <= p <= n,
            n + 1 <= MAX_NODES,
            unvisited@ == city_seq(p as nat),
        decreases n - p,
    {
        unvisited.push(p + 1);
        proof {
            assert(unvisited@ =~= city_seq((p + 1) as nat));
        }
        p = p + 1;
    }
    let mut cur: usize = 0;
    proof {
        assert(tour@ =~= seq![0usize]);
        assert(tour@.drop_first() =~= Seq::<usize>::empty());
        assert(Seq::<usize>::empty() + nn_order(d, 0, unvisited@) =~= nn_order(d, 0, unvisited@));
        assert(tour@ + unvisited@ =~= seq![0usize] + city_seq(n as nat));
        assert forall|q: int| 0 <= q < unvisited@.len() implies 1 <= #[trigger] unvisited@[q]
            && (unvisited@[q] as int) <= n by {
            assert(unvisited@[q] == city_seq(n as nat)[q]);
        }
    }
    while unvisited.len() > 0
        invariant
            d == table_view(dist),
            wf_table(d),
            d.len() == n + 1,
            n == inst.cities@.len(),
            full == nn_order(d, 0, city_seq(n as nat)),
            forall|q: int|
                0 <= q < unvisited@.len() ==> 1 <= #[trigger] unvisited@[q]
                    && (unvisited@[q] as int) <= n,
            unvisited@.no_duplicates(),
            tour@.len() >= 1,
            tour@[0] == 0usize,
            tour@.len() + unvisited@.len() == n + 1,
            forall|q: int| 0 <= q < tour@.len() ==> ((#[trigger] tour@[q]) as int) <= n,
            cur == tour@.last(),
            (cur as int) < d.len(),
            full == tour@.drop_first() + nn_order(d, cur, unvisited@),
            (tour@ + unvisited@).to_multiset() == (seq![0usize] + city_seq(n as nat)).to_multiset(),
        decreases unvisited@.len(),
    {
        proof {
            assert(indices_ok(d, unvisited@));
        }
        let picked = find_nearest(dist, cur, &unvisited);
        let pos: usize = picked.0;
        let pick: usize = picked.1;
        let ghost old_tour = tour@;
        let ghost old_unvis = unvisited@;
        let ghost old_cur = cur;
        proof {
            // unfold one greedy step
            assert(nn_order(d, old_cur, old_unvis) == seq![pick] + nn_order(
                d,
                pick,
                old_unvis.remove_value(pick),
            ));
            old_unvis.index_of_first_ensures(pick);
            match old_unvis.index_of_first(pick) {
                Some(idx) => {
                    assert(old_unvis[idx] == pick);
                    assert(idx == pos) by {
                        if idx != pos {
                            assert(old_unvis[idx] == old_unvis[pos as int]);
                        }
                    }
                },
                None => {
                    assert(old_unvis[pos as int] == pick);
                    assert(false);
                },
            }
            assert(old_unvis.remove_value(pick) == old_unvis.remove(pos as int));
        }
        tour.push(pick);
        unvisited.remove(pos);
        cur = pick;
        proof {
            old_tour.to_multiset_ensures();
            old_unvis.to_multiset_ensures();
            old_unvis.remove_ensures(pos as int);
            assert(tour@.to_multiset() =~= old_tour.to_multiset().insert(pick));
            assert(unvisited@.to_multiset() =~= old_unvis.to_multiset().remove(pick));
            assert(old_unvis.contains(pick));
            assert(old_unvis.to_multiset().count(pick) > 0);
            // the node moves from the unvisited pool onto the tour
            lemma_multiset_commutative(old_tour, old_unvis);
            lemma_multiset_commutative(tour@, unvisited@);
            assert forall|x: usize| (tour@ + unvisited@).to_multiset().count(x)
                == (old_tour + old_unvis).to_multiset().count(x) by {
            }
            assert((tour@ + unvisited@).to_multiset() =~= (old_tour + old_unvis).to_multiset());
            // order bookkeeping
            assert(tour@.drop_first() =~= old_tour.drop_first() + seq![pick]);
            assert((old_tour.drop_first() + seq![pick]) + nn_order(d, pick, unvisited@)
                =~= old_tour.drop_first() + (seq![pick] + nn_order(d, pick, unvisited@)));
            // element bounds after removal
            assert forall|q: int| 0 <= q < unvisited@.len() implies 1 <= #[trigger] unvisited@[q]
                && (unvisited@[q] as int) <= n by {
                if q < pos {
                    assert(unvisited@[q] == old_unvis[q]);
                } else {
                    assert(unvisited@[q] == old_unvis[q + 1]);
                }
            }
            // distinctness after removal
            assert forall|q1: int, q2: int|
                0 <= q1 < unvisited@.len() && 0 <= q2 < unvisited@.len() && q1 != q2
                implies unvisited@[q1] != unvisited@[q2] by {
                let m1: int = if q1 < pos { q1 } else { q1 + 1 };
                let m2: int = if q2 < pos { q2 } else { q2 + 1 };
                assert(unvisited@[q1] == old_unvis[m1]);
                assert(unvisited@[q2] == old_unvis[m2]);
                assert(m1 != m2);
            }
        }
    }
    proof {
        assert(unvisited@.len() == 0);
        assert(nn_order(d, cur, unvisited@) =~= Seq::<usize>::empty());
        assert(full =~= tour@.drop_first());
        assert(tour@ + unvisited@ =~= tour@);
    }
    let ghost before_close = tour@;
    tour.push(0);
    proof {
        before_close.to_multiset_ensures();
        assert(tour@.to_multiset() =~= before_close.to_multiset().insert(0usize));
        assert(tour@ =~= seq![0usize] + full + seq![0usize]) by {
            assert(before_close =~= seq![0usize] + full);
        }
        // the closing depot makes the multisets match the valid-tour shape
        let base = seq![0usize] + city_seq(n as nat);
        lemma_multiset_commutative(base, seq![0usize]);
        assert(seq![0usize].to_multiset() =~= Multiset::<usize>::empty().insert(0usize)) by {
            Seq::<usize>::empty().to_multiset_ensures();
            assert(Seq::<usize>::empty().to_multiset() =~= Multiset::<usize>::empty());
            assert(seq![0usize] =~= Seq::<usize>::empty().push(0usize));
        }
        assert((base + seq![0usize]).to_multiset() =~= base.to_multiset().insert(0usize));
        assert((seq![0usize] + city_seq(n as nat) + seq![0usize]).to_multiset()
            =~= tour@.to_multiset());
        assert(valid_tour(tour@, inst.cities@.len()));
    }
    tour
}


/// The 3-opt move set subsumes the 2-opt move set: a tour with no
/// improving 3-opt reconnection has no improving 2-opt exchange either.
/// (Reversing positions `i+1 ..= j` is reconnection variant 6 of the
/// triple `(i, i+1, j)`.)
pub proof fn lemma_three_opt_optimal_implies_two_opt_optimal(d: Seq<Seq<u64>>, t: Seq<usize>)
    requires
        sym_table(d),
        indices_ok(d, t),
        three_opt_optimal(d, t),
    ensures
        two_opt_optimal(d, t),
{
    assert forall|i: int, j: int| pair_in_range(t, i, j) implies #[trigger] added2(d, t, i, j)
        >= removed2(d, t, i, j) by {
        assert(triple_in_range(t, i, i + 1, j));
        assert(cost3(d, t, i, i + 1, j, 6) >= base3(d, t, i, i + 1, j));
        assert(d[t[i + 2] as int][t[i + 1] as int] == d[t[i + 1] as int][t[i + 2] as int]);
    }
}


/// The whole pipeline over one instance: build the distance table,
/// construct a nearest-neighbor tour, improve it with 2-opt and then
/// 3-opt local search, and evaluate it. Returns the tour and its
/// length.
///
/// The tour is a valid closed tour over the instance's cities, 3-opt
/// (and hence 2-opt) locally optimal under the instance's Euclidean
/// distance table, and no longer than the greedy tour it started from;
/// the returned length is exactly its length under that table.
pub fn solve(inst: &TspInstance) -> (r: (Vec<usize>, u64))
    requires
        wf_instance(*inst),
    ensures
        valid_tour(r.0@, inst.cities@.len()),
        r.1 as nat == seg_len(instance_table(*inst), r.0@),
        three_opt_optimal(instance_table(*inst), r.0@),
        two_opt_optimal(instance_table(*inst), r.0@),
        seg_len(instance_table(*inst), r.0@) <= seg_len(
            instance_table(*inst),
            seq![0usize] + nn_order(instance_table(*inst), 0, city_seq(inst.cities@.len()))
                + seq![0usize],
        ),
{
    let ghost n = inst.cities@.len();
    let d = build_distance_matrix(inst);
    let ghost tv = table_view(&d);
    let mut tour = nearest_neighbor(inst, &d);
    two_opt(&mut tour, &d);
    three_opt(&mut tour, &d);
    proof {
        assert(tv == instance_table(*inst));
        lemma_valid_tour_indices_ok(tv, tour@, n);
        lemma_three_opt_optimal_implies_two_opt_optimal(tv, tour@);
        assert(tour@.len() <= MAX_NODES + 1);
    }
    let len = tour_distance(&tour, &d);
    (tour, len)
}

/// A valid tour only addresses rows that exist in a table sized for it.
pub proof fn lemma_valid_tour_indices_ok(d: Seq<Seq<u64>>, t: Seq<usize>, n: nat)
    requires
        valid_tour(t, n),
        d.len() == n + 1,
    ensures
        indices_ok(d, t),
{
}

} // verus!
