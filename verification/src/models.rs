//! Data model of a problem instance and of a closed tour, together with
//! the spec-level notions the whole solver is measured against: the
//! distance-table well-formedness predicates, the length of a path
//! (`seg_len`), and what it means to be a valid tour.

use vstd::prelude::*;
use vstd::seq_lib::*;

verus! {

/// Largest admissible coordinate magnitude (2^30). Keeping coordinates in
/// `[-COORD_LIMIT, COORD_LIMIT]` makes every squared difference fit in a
/// `u64` when computing Euclidean distances.
pub const COORD_LIMIT: i64 = 0x4000_0000;

/// Upper bound (2^32) on any entry of a well-formed distance table.
pub const MAX_DIST: u64 = 0x1_0000_0000;

/// Largest admissible table size (2^30): with at most 2^30 nodes, a tour
/// length (at most one `MAX_DIST` entry per edge) fits in a `u64`.
pub const MAX_NODES: usize = 0x4000_0000;

/// One node of the problem: the depot or a city, with a caller-chosen
/// identity and fixed-point 2D coordinates.
#[derive(Clone, Copy, Debug, PartialEq, Eq, Structural)]
pub struct City {
    pub id: usize,
    pub x: i64,
    pub y: i64,
}

/// A problem instance: a name, the depot, and the ordered city list.
/// Node index 0 is the depot; the city at position `p` has node index
/// `p + 1`.
#[derive(Debug)]
pub struct TspInstance {
    pub name: String,
    pub depot: City,
    pub cities: Vec<City>,
}

/// Coordinates are within the fixed-point range the solver supports.
pub open spec fn wf_city(c: City) -> bool {
    &&& -COORD_LIMIT <= c.x <= COORD_LIMIT
    &&& -COORD_LIMIT <= c.y <= COORD_LIMIT
}

/// Every node of the instance has in-range coordinates and the instance
/// is small enough that all index and length arithmetic stays exact.
pub open spec fn wf_instance(inst: TspInstance) -> bool {
    &&& wf_city(inst.depot)
    &&& inst.cities.len() + 1 <= MAX_NODES
    &&& forall|p: int| 0 <= p < inst.cities.len() ==> wf_city(#[trigger] inst.cities[p])
}

/// The node with index `i`: the depot for 0, else the city at position
/// `i - 1`.
pub open spec fn node_at(inst: TspInstance, i: int) -> City {
    if i == 0 {
        inst.depot
    } else {
        inst.cities[i - 1]
    }
}

/// The mathematical view of a distance table: row `i`, column `j`.
pub open spec fn table_view(d: &Vec<Vec<u64>>) -> Seq<Seq<u64>> {
    Seq::new(d@.len(), |i: int| d@[i]@)
}

/// Every row has the same length as the column count.
pub open spec fn square_table(d: Seq<Seq<u64>>) -> bool {
    forall|i: int| 0 <= i < d.len() ==> (#[trigger] d[i]).len() == d.len()
}

/// Every entry is at most `MAX_DIST`.
pub open spec fn bounded_table(d: Seq<Seq<u64>>) -> bool {
    forall|i: int, j: int|
        0 <= i < d.len() && 0 <= j < d.len() ==> #[trigger] d[i][j] <= MAX_DIST
}

/// The table is symmetric.
pub open spec fn sym_table(d: Seq<Seq<u64>>) -> bool {
    forall|i: int, j: int|
        0 <= i < d.len() && 0 <= j < d.len() ==> #[trigger] d[i][j] == d[j][i]
}

/// The diagonal is zero.
pub open spec fn zero_diag_table(d: Seq<Seq<u64>>) -> bool {
    forall|i: int| 0 <= i < d.len() ==> #[trigger] d[i][i] == 0
}

/// A well-formed distance table: square, entry-bounded, symmetric, with
/// zero diagonal, covering at least the depot and not more nodes than
/// length arithmetic supports.
pub open spec fn wf_table(d: Seq<Seq<u64>>) -> bool {
    &&& 1 <= d.len() <= MAX_NODES
    &&& square_table(d)
    &&& bounded_table(d)
    &&& sym_table(d)
    &&& zero_diag_table(d)
}

/// The table `d` is the distance table of instance `inst`: one row per
/// node and each entry some value; the exact Euclidean contents are
/// stated by the builder's postcondition.
pub open spec fn table_size_for(d: Seq<Seq<u64>>, inst: TspInstance) -> bool {
    d.len() == inst.cities.len() + 1
}

/// Sum of the table entries along consecutive pairs of `s` (0 when `s`
/// has fewer than two elements).
pub open spec fn seg_len(d: Seq<Seq<u64>>, s: Seq<usize>) -> nat
    decreases s.len(),
{
    if s.len() < 2 {
        0
    } else {
        (d[s[0] as int][s[1] as int] as nat) + seg_len(d, s.drop_first())
    }
}

/// All elements of `s` are valid row indices of `d`.
pub open spec fn indices_ok(d: Seq<Seq<u64>>, s: Seq<usize>) -> bool {
    forall|p: int| 0 <= p < s.len() ==> ((#[trigger] s[p]) as int) < d.len()
}

/// Peeling the last edge off a path: the length of `s` is the length of
/// `s` without its last element, plus the final edge.
pub proof fn lemma_seg_len_last(d: Seq<Seq<u64>>, s: Seq<usize>)
    requires
        s.len() >= 2,
    ensures
        seg_len(d, s) == seg_len(d, s.drop_last())
            + d[s[s.len() - 2] as int][s[s.len() - 1] as int],
    decreases s.len(),
{
    if s.len() == 2 {
        assert(s.drop_last().len() == 1);
        assert(s.drop_first().len() == 1);
        assert(seg_len(d, s.drop_last()) == 0);
        assert(seg_len(d, s.drop_first()) == 0);
        assert(seg_len(d, s) == (d[s[0] as int][s[1] as int] as nat) + seg_len(d, s.drop_first()));
    } else {
        let df = s.drop_first();
        lemma_seg_len_last(d, df);
        assert(df[df.len() - 2] == s[s.len() - 2]);
        assert(df[df.len() - 1] == s[s.len() - 1]);
        assert(df.drop_last() =~= s.drop_last().drop_first());
        let dl = s.drop_last();
        assert(dl.len() >= 2);
        assert(dl[0] == s[0]);
        assert(dl[1] == s[1]);
        assert(seg_len(d, s) == (d[s[0] as int][s[1] as int] as nat) + seg_len(d, df));
        assert(seg_len(d, dl) == (d[dl[0] as int][dl[1] as int] as nat)
            + seg_len(d, dl.drop_first()));
        assert(seg_len(d, df.drop_last()) == seg_len(d, dl.drop_first()));
        assert(seg_len(d, df) == seg_len(d, dl.drop_first())
            + d[s[s.len() - 2] as int][s[s.len() - 1] as int]);
        assert(seg_len(d, s) == seg_len(d, dl)
            + d[s[s.len() - 2] as int][s[s.len() - 1] as int]);
    }
}

/// Length distributes over concatenation, with one connecting edge.
pub proof fn lemma_seg_len_concat(d: Seq<Seq<u64>>, s: Seq<usize>, t: Seq<usize>)
    requires
        s.len() >= 1,
        t.len() >= 1,
    ensures
        seg_len(d, s + t) == seg_len(d, s) + d[s.last() as int][t[0] as int] + seg_len(d, t),
    decreases s.len(),
{
    if s.len() == 1 {
        assert((s + t).drop_first() =~= t);
        assert((s + t)[0] == s[0]);
        if t.len() >= 1 {
            assert((s + t)[1] == t[0]);
        }
    } else {
        lemma_seg_len_concat(d, s.drop_first(), t);
        assert((s + t).drop_first() =~= s.drop_first() + t);
        assert(s.drop_first().last() == s.last());
        assert(s.drop_first()[0] == s[1]);
        assert((s + t)[0] == s[0]);
        assert((s + t)[1] == s[1]);
    }
}

/// For a symmetric table, reversing a path keeps its length.
pub proof fn lemma_seg_len_reverse(d: Seq<Seq<u64>>, s: Seq<usize>)
    requires
        sym_table(d),
        indices_ok(d, s),
    ensures
        seg_len(d, s.reverse()) == seg_len(d, s),
    decreases s.len(),
{
    if s.len() < 2 {
        assert(s.reverse().len() == s.len());
    } else {
        let n = s.len() as int;
        let r = s.reverse();
        assert(r[0] == s[n - 1]);
        assert(r[1] == s[n - 2]);
        assert(r.drop_first() =~= s.drop_last().reverse());
        lemma_seg_len_reverse(d, s.drop_last());
        lemma_seg_len_last(d, s);
        assert(d[s[n - 1] as int][s[n - 2] as int] == d[s[n - 2] as int][s[n - 1] as int]);
    }
}

/// The node indices 1 through `n`, in order.
pub open spec fn city_seq(n: nat) -> Seq<usize> {
    Seq::new(n, |i: int| (i + 1) as usize)
}

/// A valid closed tour over `n` cities: `n + 2` positions, the depot
/// (index 0) at both ends, every position a valid node index, and the
/// whole sequence carrying exactly the nodes 0, 1, ..., n, 0.
pub open spec fn valid_tour(t: Seq<usize>, n: nat) -> bool {
    &&& t.len() == n + 2
    &&& t[0] == 0usize
    &&& t[n as int + 1] == 0usize
    &&& forall|p: int| 0 <= p < t.len() ==> ((#[trigger] t[p]) as nat) <= n
    &&& t.to_multiset() == (seq![0usize] + city_seq(n) + seq![0usize]).to_multiset()
}

/// The interior of a tour: everything strictly between the two depot
/// endpoints.
pub open spec fn interior(t: Seq<usize>) -> Seq<usize> {
    t.subrange(1, t.len() - 1)
}

/// The interior of a valid tour is a permutation of the city indices
/// {1, ..., n}: it carries the same multiset as `city_seq(n)`.
pub proof fn lemma_valid_tour_interior(t: Seq<usize>, n: nat)
    requires
        valid_tour(t, n),
    ensures
        interior(t).to_multiset() == city_seq(n).to_multiset(),
{
    let z = seq![0usize];
    assert(t =~= z + interior(t) + z);
    lemma_multiset_commutative(z + interior(t), z);
    lemma_multiset_commutative(z, interior(t));
    lemma_multiset_commutative(z + city_seq(n), z);
    lemma_multiset_commutative(z, city_seq(n));
    let mi = interior(t).to_multiset();
    let mc = city_seq(n).to_multiset();
    assert(z.to_multiset().add(mi).add(z.to_multiset())
        == z.to_multiset().add(mc).add(z.to_multiset()));
    broadcast use vstd::multiset::group_multiset_axioms;
    assert forall|e: usize| mi.count(e) == mc.count(e) by {
        assert(z.to_multiset().add(mi).add(z.to_multiset()).count(e)
            == z.to_multiset().count(e) + mi.count(e) + z.to_multiset().count(e));
        assert(z.to_multiset().add(mc).add(z.to_multiset()).count(e)
            == z.to_multiset().count(e) + mc.count(e) + z.to_multiset().count(e));
    }
    assert(mi =~= mc);
}

/// Total length of a closed tour: the sum of the table entries for each
/// consecutive pair, the closing edge back to the depot included.
///
/// This is the table-based evaluator; it accepts any index-valid path,
/// not only valid tours.
pub fn tour_distance(tour: &Vec<usize>, dist: &Vec<Vec<u64>>) -> (total: u64)
    requires
        square_table(table_view(dist)),
        bounded_table(table_view(dist)),
        indices_ok(table_view(dist), tour@),
        tour@.len() <= MAX_NODES + 1,
    ensures
        total as nat == seg_len(table_view(dist), tour@),
{
    let ghost d = table_view(dist);
    if tour.len() < 2 {
        return 0;
    }
    let mut total: u64 = 0;
    let end: usize = tour.len() - 1;
    let mut i: usize = 0;
    while i < end
        invariant
            square_table(d),
            bounded_table(d),
            indices_ok(d, tour@),
            d == table_view(dist),
            end == tour@.len() - 1,
            2 <= tour@.len() <= MAX_NODES + 1,
            0 <= i <= end,
            total as nat == seg_len(d, tour@.take(i as int + 1)),
            total <= (i as nat) * MAX_DIST,
        decreases end - i,
    {
        let a: usize = tour[i];
        let b: usize = tour[i + 1];
        proof {
            assert(((tour@[i as int]) as int) < d.len());
            assert(((tour@[i as int + 1]) as int) < d.len());
            assert(d[a as int] == dist@[a as int]@);
            assert(d[a as int].len() == d.len());
        }
        let step: u64 = dist[a][b];
        proof {
            assert(d[a as int][b as int] <= MAX_DIST);
            assert((i as nat) * MAX_DIST + MAX_DIST == ((i + 1) as nat) * MAX_DIST)
                by (nonlinear_arith);
            assert(((i + 1) as nat) * MAX_DIST <= ((MAX_NODES + 1) as nat) * MAX_DIST)
                by (nonlinear_arith)
                requires i + 1 <= MAX_NODES + 1;
            let pre = tour@.take(i as int + 2);
            assert(pre.drop_last() =~= tour@.take(i as int + 1));
            lemma_seg_len_last(d, pre);
            assert(pre[i as int] == tour@[i as int]);
            assert(pre[i as int + 1] == tour@[i as int + 1]);
        }
        total = total + step;
        i = i + 1;
    }
    proof {
        assert(tour@.take(end as int + 1) =~= tour@);
    }
    total
}

} // verus!
