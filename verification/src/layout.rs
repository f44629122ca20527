//! Layered graph ordering: topological order with graceful cycle fallback,
//! depth assignment, and grouping into layers.
//!
//! Nodes are identified by their position in the name-sorted node list, so
//! index order coincides with lexicographic name order and every tie-break
//! below is a plain integer comparison. Child lists may repeat an index;
//! in-degrees count one per occurrence.

use vstd::prelude::*;

verus! {

use vstd::pervasive::VecAdditionalExecFns;

broadcast use vstd::set::group_set_axioms;


/// Number of occurrences of `c` in one child list.
pub open spec fn count_in(s: Seq<usize>, c: usize) -> int
    decreases s.len(),
{
    if s.len() == 0 {
        0
    } else {
        (if s[0] == c {
            1int
        } else {
            0int
        }) + count_in(s.drop_first(), c)
    }
}

/// `p` declares an edge to `c`.
pub open spec fn edge_to(ch: Seq<Seq<usize>>, p: int, c: usize) -> bool {
    0 <= p < ch.len() && count_in(ch[p], c) > 0
}

/// In-degree of `c` contributed by rows `[0, j)` whose index is not in
/// `excl`.
pub open spec fn cf(ch: Seq<Seq<usize>>, excl: Set<int>, c: usize, j: int) -> int
    decreases j,
{
    if j <= 0 {
        0
    } else {
        cf(ch, excl, c, j - 1) + if excl.contains(j - 1) {
            0
        } else {
            count_in(ch[j - 1], c)
        }
    }
}

/// Total number of edges declared by rows `[0, j)`.
pub open spec fn edges_upto(ch: Seq<Seq<usize>>, j: int) -> int
    decreases j,
{
    if j <= 0 {
        0
    } else {
        edges_upto(ch, j - 1) + ch[j - 1].len()
    }
}

/// The indices popped so far: the first `h` entries of the queue.
pub open spec fn popped(q: Seq<usize>, h: int) -> Set<int> {
    Set::new(|p: int| exists|i: int| 0 <= i < h && (#[trigger] q[i]) as int == p)
}

/// `p` occurs among the first `i` queue entries.
pub open spec fn in_prefix(q: Seq<usize>, i: int, p: int) -> bool {
    exists|i2: int| 0 <= i2 < i && (#[trigger] q[i2]) as int == p
}

/// A duplicate-free sequence of indices below `n` has at most `n` entries.
proof fn lemma_distinct_bounded_len(s: Seq<usize>, n: usize)
    requires
        s.no_duplicates(),
        forall|i: int| 0 <= i < s.len() ==> (#[trigger] s[i]) < n,
    ensures
        s.len() <= n,
{
    let f = |x: usize| x as int;
    let si = s.map_values(f);
    s.lemma_no_duplicates_injective(f);
    si.unique_seq_to_set();
    vstd::set_lib::lemma_int_range(0, n as int);
    assert(si.to_set().subset_of(vstd::set_lib::set_int_range(0, n as int))) by {
        assert forall|x: int| si.to_set().contains(x) implies vstd::set_lib::set_int_range(
            0,
            n as int,
        ).contains(x) by {
            let i = choose|i: int| 0 <= i < si.len() && si[i] == x;
            assert(s[i] < n);
        }
    }
    vstd::set_lib::lemma_len_subset(si.to_set(), vstd::set_lib::set_int_range(0, n as int));
}

proof fn lemma_count_nonneg(s: Seq<usize>, c: usize)
    ensures
        0 <= count_in(s, c) <= s.len(),
    decreases s.len(),
{
    if s.len() > 0 {
        lemma_count_nonneg(s.drop_first(), c);
    }
}

proof fn lemma_count_skip(s: Seq<usize>, c: usize, e: int)
    requires
        0 <= e < s.len(),
    ensures
        count_in(s.skip(e), c) == count_in(s.skip(e + 1), c) + if s[e] == c {
            1int
        } else {
            0int
        },
{
    assert(s.skip(e)[0] == s[e]);
    assert(s.skip(e).drop_first() =~= s.skip(e + 1));
}

proof fn lemma_count_skip_le(s: Seq<usize>, c: usize, e: int)
    requires
        0 <= e <= s.len(),
    ensures
        count_in(s.skip(e), c) <= count_in(s, c),
    decreases e,
{
    if e == 0 {
        assert(s.skip(0) =~= s);
    } else {
        lemma_count_skip_le(s, c, e - 1);
        lemma_count_skip(s, c, e - 1);
    }
}

proof fn lemma_count_take_step(s: Seq<usize>, c: usize, e: int)
    requires
        0 <= e < s.len(),
    ensures
        count_in(s.take(e + 1), c) == count_in(s.take(e), c) + if s[e] == c {
            1int
        } else {
            0int
        },
    decreases e,
{
    if e == 0 {
        assert(s.take(0).len() == 0);
        assert(s.take(1)[0] == s[0]);
        assert(s.take(1).drop_first() =~= s.take(0));
    } else {
        lemma_count_take_step(s.drop_first(), c, e - 1);
        assert(s.take(e + 1)[0] == s[0]);
        assert(s.take(e)[0] == s[0]);
        assert(s.take(e + 1).drop_first() =~= s.drop_first().take(e));
        assert(s.take(e).drop_first() =~= s.drop_first().take(e - 1));
        assert(s.drop_first()[e - 1] == s[e]);
    }
}

proof fn lemma_count_take_le(s: Seq<usize>, c: usize, j: int)
    requires
        0 <= j <= s.len(),
    ensures
        count_in(s.take(j), c) <= count_in(s, c),
    decreases s.len() - j,
{
    if j == s.len() {
        assert(s.take(j) =~= s);
    } else {
        lemma_count_take_step(s, c, j);
        lemma_count_take_le(s, c, j + 1);
    }
}

proof fn lemma_cf_bounds(ch: Seq<Seq<usize>>, excl: Set<int>, c: usize, j: int)
    ensures
        0 <= cf(ch, excl, c, j) <= edges_upto(ch, j),
    decreases j,
{
    if j > 0 {
        lemma_cf_bounds(ch, excl, c, j - 1);
        if 0 <= j - 1 < ch.len() {
            lemma_count_nonneg(ch[j - 1], c);
        } else {
            lemma_count_nonneg(ch[j - 1], c);
        }
    }
}

proof fn lemma_cf_insert(ch: Seq<Seq<usize>>, excl: Set<int>, u: int, c: usize, j: int)
    requires
        !excl.contains(u),
    ensures
        cf(ch, excl.insert(u), c, j) == cf(ch, excl, c, j) - if 0 <= u < j {
            count_in(ch[u], c)
        } else {
            0int
        },
    decreases j,
{
    if j > 0 {
        lemma_cf_insert(ch, excl, u, c, j - 1);
    }
}

proof fn lemma_cf_ge_term(ch: Seq<Seq<usize>>, excl: Set<int>, c: usize, p: int, j: int)
    requires
        0 <= p < j,
        !excl.contains(p),
    ensures
        cf(ch, excl, c, j) >= count_in(ch[p], c),
    decreases j,
{
    lemma_count_nonneg(ch[j - 1], c);
    if p == j - 1 {
        lemma_cf_bounds(ch, excl, c, j - 1);
    } else {
        lemma_cf_ge_term(ch, excl, c, p, j - 1);
    }
}

/// Some node declares an edge to `c`.
pub open spec fn has_parent_edge(ch: Seq<Seq<usize>>, c: usize) -> bool {
    exists|p: int| #[trigger] edge_to(ch, p, c)
}

/// `rank` numbers the nodes so that every edge goes strictly upward.
pub open spec fn is_topo_rank(ch: Seq<Seq<usize>>, rank: spec_fn(usize) -> int) -> bool {
    forall|p: int, c: usize| #[trigger] edge_to(ch, p, c) ==> rank(p as usize) < rank(c)
}

/// The graph has no cycle: some numbering puts every edge's source
/// strictly before its target.
pub open spec fn cycle_free(ch: Seq<Seq<usize>>) -> bool {
    exists|rank: spec_fn(usize) -> int| #[trigger] is_topo_rank(ch, rank)
}

/// The position of `x` in a sequence (unique when duplicate-free).
pub open spec fn pos_in(s: Seq<usize>, x: usize) -> int {
    choose|i: int| 0 <= i < s.len() && s[i] == x
}

/// A positive occurrence count means the element occurs.
proof fn lemma_count_pos_contains(s: Seq<usize>, c: usize)
    requires
        count_in(s, c) > 0,
    ensures
        s.contains(c),
    decreases s.len(),
{
    if s.len() > 0 {
        if s[0] == c {
        } else {
            lemma_count_pos_contains(s.drop_first(), c);
            let i = choose|i: int| 0 <= i < s.drop_first().len() && s.drop_first()[i] == c;
            assert(s[i + 1] == c);
        }
    }
}

/// A positive excluded-aware in-degree names a non-excluded edge source.
proof fn lemma_cf_pos_has_term(ch: Seq<Seq<usize>>, excl: Set<int>, c: usize, j: int)
    requires
        cf(ch, excl, c, j) > 0,
    ensures
        exists|p: int|
            0 <= p < j && !excl.contains(p) && count_in(#[trigger] ch[p], c) > 0,
    decreases j,
{
    if j > 0 {
        if !excl.contains(j - 1) && count_in(ch[j - 1], c) > 0 {
            assert(0 <= j - 1 < j && !excl.contains(j - 1) && count_in(ch[j - 1], c) > 0);
        } else {
            lemma_count_nonneg(ch[j - 1], c);
            lemma_cf_pos_has_term(ch, excl, c, j - 1);
            let p = choose|p: int|
                0 <= p < j - 1 && !excl.contains(p) && count_in(#[trigger] ch[p], c) > 0;
            assert(0 <= p < j && !excl.contains(p) && count_in(ch[p], c) > 0);
        }
    }
}

/// A duplicate-free sequence containing every index below `n` has at
/// least `n` entries.
proof fn lemma_contains_all_len(s: Seq<usize>, n: usize)
    requires
        s.no_duplicates(),
        forall|c: usize| c < n ==> s.contains(c),
    ensures
        s.len() >= n,
{
    let f = |x: usize| x as int;
    let si = s.map_values(f);
    s.lemma_no_duplicates_injective(f);
    si.unique_seq_to_set();
    vstd::set_lib::lemma_int_range(0, n as int);
    assert(vstd::set_lib::set_int_range(0, n as int).subset_of(si.to_set())) by {
        assert forall|x: int|
            vstd::set_lib::set_int_range(0, n as int).contains(x) implies si.to_set().contains(
            x,
        ) by {
            assert(s.contains((x as usize)));
            let i = choose|i: int| 0 <= i < s.len() && s[i] == (x as usize);
            assert(si[i] == x);
        }
    }
    vstd::set_lib::lemma_len_subset(
        vstd::set_lib::set_int_range(0, n as int),
        si.to_set(),
    );
}

/// Walks parents inside a stuck set, producing a chain of k+1 nodes in
/// which every later entry is a parent of the one before it.
#[verifier::rlimit(100)]
#[verifier::spinoff_prover]
proof fn chain_build(ch: Seq<Seq<usize>>, n: usize, stuck: Set<usize>, x: usize, k: nat) -> (c: Seq<
    usize,
>)
    requires
        ch.len() == n,
        stuck.contains(x),
        x < n,
        forall|r: usize| #[trigger] stuck.contains(r) ==> r < n && exists|p: int|
            0 <= p < n && stuck.contains((p as usize)) && edge_to(ch, p, r),
    ensures
        c.len() == k + 1,
        forall|i: int| 0 <= i < c.len() ==> stuck.contains(#[trigger] c[i]) && c[i] < n,
        forall|i: int| 0 <= i < c.len() - 1 ==> edge_to(ch, (#[trigger] c[i + 1]) as int, c[i]),
    decreases k,
{
    if k == 0 {
        let c = seq![x];
        assert(c[0] == x);
        c
    } else {
        let rest = chain_build(ch, n, stuck, x, (k - 1) as nat);
        let last = rest[k as int - 1];
        assert(stuck.contains(last));
        let p = choose|p: int|
            0 <= p < n && stuck.contains((p as usize)) && edge_to(ch, p, last);
        let c = rest.push(p as usize);
        assert forall|i: int| 0 <= i < c.len() - 1 implies edge_to(
            ch,
            (#[trigger] c[i + 1]) as int,
            c[i],
        ) by {
            if i < k - 1 {
                assert(c[i + 1] == rest[i + 1]);
                assert(c[i] == rest[i]);
            } else {
                assert(c[i + 1] == (p as usize));
                assert(c[i] == last);
            }
        }
        c
    }
}

/// Along such a chain the rank strictly decreases.
proof fn lemma_rank_desc(
    c: Seq<usize>,
    ch: Seq<Seq<usize>>,
    rank: spec_fn(usize) -> int,
    i: int,
    j: int,
)
    requires
        is_topo_rank(ch, rank),
        0 <= i < j < c.len(),
        forall|m: int| 0 <= m < c.len() - 1 ==> edge_to(ch, (#[trigger] c[m + 1]) as int, c[m]),
    ensures
        rank(c[j]) < rank(c[i]),
    decreases j - i,
{
    assert(edge_to(ch, (c[i + 1]) as int, c[i]));
    assert(rank(c[i + 1]) < rank(c[i]));
    if i + 1 < j {
        lemma_rank_desc(c, ch, rank, i + 1, j);
    }
}

/// A nonempty set of nodes in which everyone has an in-set parent admits
/// no upward numbering: following parents n+1 times must revisit a node,
/// and its rank would be below itself.
#[verifier::rlimit(100)]
#[verifier::spinoff_prover]
proof fn lemma_stuck_not_rank(
    ch: Seq<Seq<usize>>,
    n: usize,
    stuck: Set<usize>,
    rank: spec_fn(usize) -> int,
    x: usize,
)
    requires
        ch.len() == n,
        stuck.contains(x),
        x < n,
        forall|r: usize| #[trigger] stuck.contains(r) ==> r < n && exists|p: int|
            0 <= p < n && stuck.contains((p as usize)) && edge_to(ch, p, r),
    ensures
        !is_topo_rank(ch, rank),
{
    if is_topo_rank(ch, rank) {
        let c = chain_build(ch, n, stuck, x, (n + 1) as nat);
        assert(!c.no_duplicates()) by {
            if c.no_duplicates() {
                lemma_distinct_bounded_len(c, n);
            }
        }
        let (i, j) = choose|i: int, j: int|
            0 <= i < c.len() && 0 <= j < c.len() && i != j && #[trigger] c[i] == #[trigger] c[j];
        if i < j {
            lemma_rank_desc(c, ch, rank, i, j);
        } else {
            lemma_rank_desc(c, ch, rank, j, i);
        }
        assert(false);
    }
}

/// The ordered layering of the DAG: a total order over every node (a
/// topological prefix followed by the remaining indices in ascending
/// order), a depth per node, and the nodes grouped by depth.
pub struct LayeredOrder {
    /// Every node index exactly once: the topological prefix (which opens
    /// with the parentless nodes in ascending order), then the remaining
    /// indices ascending.
    pub order: Vec<usize>,
    /// How many entries the topological pass ordered (the prefix length).
    pub topo_count: usize,
    /// Whether the topological pass covered every node, which holds
    /// exactly when the edge relation is cycle-free.
    pub acyclic: bool,
    /// Depth per node: strictly below every parent when acyclic.
    pub depth: Vec<usize>,
    /// Nodes grouped by depth, each layer in ascending index order.
    pub layers: Vec<Vec<usize>>,
}

/// Orders the graph given by `children` (index-based adjacency, possibly
/// with repeated edges) for layered drawing.
pub fn layered_order(n: usize, children: &Vec<Vec<usize>>) -> (r: LayeredOrder)
    requires
        children@.len() == n,
        forall|p: int, e: int|
            0 <= p < n && 0 <= e < children@[p]@.len() ==> (#[trigger] children@[p]@[e]) < n,
        edges_upto(children.deep_view(), n as int) <= usize::MAX,
    ensures
        r.order@.len() == n,
        forall|c: usize| c < n ==> r.order@.contains(c),
        r.order@.no_duplicates(),
        forall|i: int| 0 <= i < r.order@.len() ==> (#[trigger] r.order@[i]) < n,
        r.topo_count <= n,
        (r.acyclic <==> r.topo_count == n),
        (r.acyclic <==> cycle_free(children.deep_view())),
        forall|i: int, p: int|
            0 <= i < r.topo_count && #[trigger] edge_to(children.deep_view(), p, r.order@[i])
                ==> in_prefix(r.order@, i, p),
        forall|i: int, j: int|
            0 <= i < j < r.topo_count && !has_parent_edge(
                children.deep_view(),
                #[trigger] r.order@[j],
            ) ==> !has_parent_edge(children.deep_view(), #[trigger] r.order@[i]) && r.order@[i]
                < r.order@[j],
        forall|i: int, j: int|
            r.topo_count <= i < j < r.order@.len() ==> (#[trigger] r.order@[i]) < (
            #[trigger] r.order@[j]),
        r.depth@.len() == n,
        r.acyclic ==> forall|p: int, c: usize|
            #[trigger] edge_to(children.deep_view(), p, c) && c < n ==> r.depth@[c as int]
                > r.depth@[p],
        forall|c: usize|
            c < n && !has_parent_edge(children.deep_view(), c) ==> r.depth@[c as int] == 0,
        r.acyclic ==> forall|c: usize|
            c < n && #[trigger] has_parent_edge(children.deep_view(), c) ==> exists|p: int|
                edge_to(children.deep_view(), p, c) && r.depth@[c as int] == r.depth@[p] + 1,
        forall|c: int| 0 <= c < n ==> (#[trigger] r.depth@[c]) < r.layers@.len(),
        forall|d: int, c: usize|
            0 <= d < r.layers@.len() && c < n ==> ((#[trigger] r.layers@[d]@.contains(c))
                <==> r.depth@[c as int] == d),
        forall|d: int, i: int, j: int|
            0 <= d < r.layers@.len() && 0 <= i < j < r.layers@[d]@.len()
                ==> (#[trigger] r.layers@[d]@[i]) < (#[trigger] r.layers@[d]@[j]),
        forall|d: int, i: int|
            0 <= d < r.layers@.len() && 0 <= i < r.layers@[d]@.len() ==> (#[trigger] r.layers@[
                d
            ]@[i]) < n,
{
    let ghost cdv = children.deep_view();
    proof {
        assert(cdv.len() == n);
        assert forall|p: int| 0 <= p < n implies cdv[p] == children@[p]@ by {
            assert(children.deep_view()[p] =~= children@[p].deep_view());
            assert(children@[p].deep_view() =~= children@[p]@);
        }
    }
    // in-degrees, counting one per edge occurrence
    let mut indeg: Vec<usize> = Vec::new();
    let mut z: usize = 0;
    while z < n
        invariant
            z <= n,
            indeg@.len() == z,
            forall|c: int| 0 <= c < z ==> (#[trigger] indeg@[c]) == 0,
        decreases n - z,
    {
        indeg.push(0);
        z += 1;
    }
    let ghost empty_excl = Set::<int>::empty();
    let mut p: usize = 0;
    proof {
        assert forall|c: usize| c < n implies indeg@[c as int] == cf(cdv, empty_excl, c, 0) by {}
    }
    while p < n
        invariant
            p <= n,
            n == cdv.len(),
            children@.len() == n,
            forall|pp: int| 0 <= pp < n ==> cdv[pp] == (#[trigger] children@[pp])@,
            forall|pp: int, e: int|
                0 <= pp < n && 0 <= e < children@[pp]@.len() ==> (#[trigger] children@[pp]@[e])
                    < n,
            edges_upto(cdv, n as int) <= usize::MAX,
            indeg@.len() == n,
            empty_excl == Set::<int>::empty(),
            forall|c: usize| c < n ==> indeg@[c as int] == cf(cdv, empty_excl, c, p as int),
        decreases n - p,
    {
        let row = &children[p];
        let mut e: usize = 0;
        proof {
            assert(cdv[p as int].take(0) =~= Seq::<usize>::empty());
            assert forall|c: usize| c < n implies indeg@[c as int] == cf(
                cdv,
                empty_excl,
                c,
                p as int,
            ) + count_in(cdv[p as int].take(0), c) by {}
        }
        while e < row.len()
            invariant
                e <= row@.len(),
                p < n,
                n == cdv.len(),
                row@ == cdv[p as int],
                forall|e2: int| 0 <= e2 < row@.len() ==> (#[trigger] row@[e2]) < n,
                edges_upto(cdv, n as int) <= usize::MAX,
                indeg@.len() == n,
                empty_excl == Set::<int>::empty(),
                forall|c: usize|
                    c < n ==> indeg@[c as int] == cf(cdv, empty_excl, c, p as int) + count_in(
                        cdv[p as int].take(e as int),
                        c,
                    ),
            decreases row@.len() - e,
        {
            let c = row[e];
            proof {
                lemma_count_take_step(cdv[p as int], c, e as int);
                lemma_cf_bounds(cdv, empty_excl, c, p as int);
                lemma_count_nonneg(cdv[p as int].take(e as int), c);
                lemma_count_nonneg(cdv[p as int], c);
                // the running count stays within the total edge budget
                assert(cf(cdv, empty_excl, c, p as int) + count_in(
                    cdv[p as int].take(e as int + 1),
                    c,
                ) <= edges_upto(cdv, n as int)) by {
                    lemma_cf_ge_term_all(cdv, empty_excl, c, p as int);
                    lemma_count_take_le(cdv[p as int], c, e as int + 1);
                }
            }
            let old_v = indeg[c];
            indeg.set(c, old_v + 1);
            e += 1;
            proof {
                assert forall|c2: usize| c2 < n implies indeg@[c2 as int] == cf(
                    cdv,
                    empty_excl,
                    c2,
                    p as int,
                ) + count_in(cdv[p as int].take(e as int), c2) by {
                    lemma_count_take_step(cdv[p as int], c2, e as int - 1);
                }
            }
        }
        p += 1;
        proof {
            assert(e == row@.len());
            assert(cdv[p as int - 1].take(row@.len() as int) =~= cdv[p as int - 1]);
            assert forall|c: usize| c < n implies indeg@[c as int] == cf(
                cdv,
                empty_excl,
                c,
                p as int,
            ) by {
                broadcast use vstd::set::group_set_axioms;

                assert(indeg@[c as int] == cf(cdv, empty_excl, c, p as int - 1) + count_in(
                    cdv[p as int - 1].take(e as int),
                    c,
                ));
                assert(!empty_excl.contains(p as int - 1));
                assert(cf(cdv, empty_excl, c, p as int) == cf(cdv, empty_excl, c, p as int - 1)
                    + count_in(cdv[p as int - 1], c));
            }
        }
    }
    // topological pass: repeatedly pop a zero in-degree node
    let mut q: Vec<usize> = Vec::new();
    let mut s: usize = 0;
    while s < n
        invariant
            s <= n,
            n == cdv.len(),
            indeg@.len() == n,
            empty_excl == Set::<int>::empty(),
            forall|c: usize| c < n ==> indeg@[c as int] == cf(cdv, empty_excl, c, n as int),
            q@.no_duplicates(),
            forall|i: int| 0 <= i < q@.len() ==> (#[trigger] q@[i]) < s,
            forall|i: int| 0 <= i < q@.len() ==> indeg@[(#[trigger] q@[i]) as int] == 0,
            forall|c: usize| c < s && indeg@[c as int] == 0 ==> q@.contains(c),
            forall|i: int, j: int|
                0 <= i < j < q@.len() ==> (#[trigger] q@[i]) < (#[trigger] q@[j]),
        decreases n - s,
    {
        if indeg[s] == 0 {
            let ghost pre = q@;
            q.push(s);
            proof {
                assert forall|c: usize| c < s + 1 && indeg@[c as int] == 0 implies q@.contains(
                    c,
                ) by {
                    if c < s {
                        let i = choose|i: int| 0 <= i < pre.len() && pre[i] == c;
                        assert(q@[i] == c);
                    } else {
                        assert(q@[q@.len() - 1] == c);
                    }
                }
            }
        }
        s += 1;
    }
    let ghost nseeds = q@.len() as int;
    proof {
        assert(popped(q@, 0) =~= empty_excl);
        assert forall|i: int, pp: int|
            0 <= i < q@.len() && #[trigger] edge_to(cdv, pp, q@[i]) implies in_prefix(
            q@,
            i,
            pp,
        ) by {
            assert(indeg@[q@[i] as int] == 0);
            lemma_cf_ge_term(cdv, empty_excl, q@[i], pp, n as int);
            assert(false);
        }
        // the seed entries are exactly the parentless nodes
        assert forall|i: int| 0 <= i < nseeds implies !has_parent_edge(
            cdv,
            #[trigger] q@[i],
        ) by {
            if has_parent_edge(cdv, q@[i]) {
                let pp = choose|pp: int| #[trigger] edge_to(cdv, pp, q@[i]);
                assert(indeg@[q@[i] as int] == 0);
                lemma_cf_ge_term(cdv, empty_excl, q@[i], pp, n as int);
                assert(false);
            }
        }
        lemma_distinct_bounded_len(q@, n);
    }
    let mut h: usize = 0;
    while h < q.len()
        invariant
            h <= q@.len(),
            n == cdv.len(),
            children@.len() == n,
            forall|pp: int| 0 <= pp < n ==> cdv[pp] == (#[trigger] children@[pp])@,
            forall|pp: int, e: int|
                0 <= pp < n && 0 <= e < children@[pp]@.len() ==> (#[trigger] children@[pp]@[e])
                    < n,
            indeg@.len() == n,
            q@.no_duplicates(),
            forall|i: int| 0 <= i < q@.len() ==> (#[trigger] q@[i]) < n,
            forall|c: usize| c < n ==> indeg@[c as int] == cf(cdv, popped(q@, h as int), c, n as int),
            forall|i: int| h <= i < q@.len() ==> indeg@[(#[trigger] q@[i]) as int] == 0,
            forall|i: int, pp: int|
                0 <= i < q@.len() && #[trigger] edge_to(cdv, pp, q@[i]) ==> in_prefix(q@, i, pp),
            forall|c: usize| c < n && indeg@[c as int] == 0 ==> q@.contains(c),
            q@.len() <= n,
            0 <= nseeds <= q@.len(),
            forall|i: int| 0 <= i < nseeds ==> !has_parent_edge(cdv, #[trigger] q@[i]),
            forall|i: int| nseeds <= i < q@.len() ==> has_parent_edge(cdv, #[trigger] q@[i]),
            forall|i: int, j: int| 0 <= i < j < nseeds ==> (#[trigger] q@[i]) < (#[trigger] q@[j]),
        decreases n - h,
    {
        let u = q[h];
        h += 1;
        let ghost excl0 = popped(q@, h as int - 1);
        let ghost excl1 = popped(q@, h as int);
        proof {
            assert(!excl0.contains(u as int)) by {
                if excl0.contains(u as int) {
                    let i = choose|i: int|
                        0 <= i < h - 1 && (#[trigger] q@[i]) as int == u as int;
                    assert(q@[i] == q@[h as int - 1]);
                }
            }
            assert(excl1 =~= excl0.insert(u as int)) by {
                assert forall|x: int| excl1.contains(x) implies excl0.insert(u as int).contains(
                    x,
                ) by {
                    let i = choose|i: int| 0 <= i < h && (#[trigger] q@[i]) as int == x;
                    if i < h - 1 {
                        assert(excl0.contains(x));
                    }
                }
                assert forall|x: int| excl0.insert(u as int).contains(x) implies excl1.contains(
                    x,
                ) by {
                    if x == u as int {
                        assert(q@[h as int - 1] as int == x);
                    } else {
                        let i = choose|i: int|
                            0 <= i < h - 1 && (#[trigger] q@[i]) as int == x;
                        assert(0 <= i < h && q@[i] as int == x);
                    }
                }
            }
            assert forall|c: usize| c < n implies indeg@[c as int] == cf(
                cdv,
                excl1,
                c,
                n as int,
            ) + count_in(cdv[u as int].skip(0), c) by {
                lemma_cf_insert(cdv, excl0, u as int, c, n as int);
                assert(cdv[u as int].skip(0) =~= cdv[u as int]);
            }
        }
        let row = &children[u];
        let mut e: usize = 0;
        while e < row.len()
            invariant
                e <= row@.len(),
                u < n,
                h <= q@.len(),
                h >= 1,
                u == q@[h as int - 1],
                n == cdv.len(),
                children@.len() == n,
                forall|pp: int| 0 <= pp < n ==> cdv[pp] == (#[trigger] children@[pp])@,
                forall|pp: int, e2: int|
                    0 <= pp < n && 0 <= e2 < children@[pp]@.len() ==> (#[trigger] children@[
                        pp
                    ]@[e2]) < n,
                row@ == cdv[u as int],
                indeg@.len() == n,
                q@.no_duplicates(),
                forall|i: int| 0 <= i < q@.len() ==> (#[trigger] q@[i]) < n,
                excl1 == popped(q@, h as int),
                forall|c: usize|
                    c < n ==> indeg@[c as int] == cf(cdv, excl1, c, n as int) + count_in(
                        cdv[u as int].skip(e as int),
                        c,
                    ),
                forall|i: int| h <= i < q@.len() ==> indeg@[(#[trigger] q@[i]) as int] == 0,
                forall|i: int, pp: int|
                    0 <= i < q@.len() && #[trigger] edge_to(cdv, pp, q@[i]) ==> in_prefix(
                        q@,
                        i,
                        pp,
                    ),
                forall|c: usize| c < n && indeg@[c as int] == 0 ==> q@.contains(c),
                q@.len() <= n,
                0 <= nseeds <= q@.len(),
                forall|i: int| 0 <= i < nseeds ==> !has_parent_edge(cdv, #[trigger] q@[i]),
                forall|i: int| nseeds <= i < q@.len() ==> has_parent_edge(cdv, #[trigger] q@[i]),
                forall|i: int, j: int|
                    0 <= i < j < nseeds ==> (#[trigger] q@[i]) < (#[trigger] q@[j]),
            decreases row@.len() - e,
        {
            let c = row[e];
            proof {
                assert(c == cdv[u as int][e as int]);
                assert(c == children@[u as int]@[e as int]);
                assert(c < n);
                lemma_count_skip(cdv[u as int], c, e as int);
                lemma_count_nonneg(cdv[u as int].skip(e as int + 1), c);
                lemma_cf_bounds(cdv, excl1, c, n as int);
                assert(indeg@[c as int] == cf(cdv, excl1, c, n as int) + count_in(
                    cdv[u as int].skip(e as int),
                    c,
                ));
                assert(count_in(cdv[u as int].skip(e as int), c) >= 1);
                assert(indeg@[c as int] >= 1);
            }
            let ghost pre_indeg = indeg@;
            let ghost q_before = q@;
            let dv = indeg[c];
            indeg.set(c, dv - 1);
            let pushed_c: bool = indeg[c] == 0;
            if pushed_c {
                proof {
                    // c is in nobody's pending slot and was never popped
                    assert(!q@.contains(c)) by {
                        if q@.contains(c) {
                            let i = choose|i: int| 0 <= i < q@.len() && q@[i] == c;
                            if i >= h {
                                // pending entries keep in-degree zero
                                assert(dv == 0);
                                assert(count_in(cdv[u as int].skip(e as int), c) >= 1);
                                lemma_cf_bounds(cdv, excl1, c, n as int);
                                assert(false);
                            } else {
                                // a popped node's parents were popped before it,
                                // so u would occur twice
                                lemma_count_skip_le(cdv[u as int], c, e as int);
                                assert(count_in(cdv[u as int], c) >= 1);
                                assert(edge_to(cdv, u as int, c));
                                assert(in_prefix(q@, i, u as int));
                                let i2 = choose|i2: int|
                                    0 <= i2 < i && (#[trigger] q@[i2]) as int == u as int;
                                assert(q@[i2] == q@[h as int - 1]);
                                assert(i2 < i <= h - 1);
                                assert(false);
                            }
                        }
                    }
                }
                let ghost pre_q = q@;
                q.push(c);
                proof {
                    assert forall|i: int, pp: int|
                        0 <= i < q@.len() && #[trigger] edge_to(cdv, pp, q@[i])
                        implies in_prefix(q@, i, pp) by {
                        if i < pre_q.len() {
                            assert(q@[i] == pre_q[i]);
                            assert(edge_to(cdv, pp, pre_q[i]));
                            assert(in_prefix(pre_q, i, pp));
                            let i2 = choose|i2: int|
                                0 <= i2 < i && (#[trigger] pre_q[i2]) as int == pp;
                            assert((q@[i2]) as int == pp);
                        } else {
                            // every edge into c comes from a popped node
                            assert(q@[i] == c);
                            assert(indeg@[c as int] == 0);
                            assert(cf(cdv, excl1, c, n as int) >= 0) by {
                                lemma_cf_bounds(cdv, excl1, c, n as int);
                            }
                            assert(count_in(cdv[u as int].skip(e as int + 1), c) >= 0) by {
                                lemma_count_nonneg(cdv[u as int].skip(e as int + 1), c);
                            }
                            assert(cf(cdv, excl1, c, n as int) == 0);
                            if !excl1.contains(pp) {
                                assert(0 <= pp < n);
                                lemma_cf_ge_term(cdv, excl1, c, pp, n as int);
                                assert(false);
                            }
                            let i2 = choose|i2: int|
                                0 <= i2 < h && (#[trigger] pre_q[i2]) as int == pp;
                            assert(q@[i2] as int == pp);
                            assert(h <= pre_q.len());
                            assert(i2 < h <= i);
                        }
                    }
                    assert(has_parent_edge(cdv, c)) by {
                        lemma_count_skip_le(cdv[u as int], c, e as int);
                        assert(count_in(cdv[u as int], c) >= 1);
                        assert(edge_to(cdv, u as int, c));
                    }
                    lemma_distinct_bounded_len(q@, n);
                    assert(popped(q@, h as int) =~= excl1) by {
                        assert forall|x: int| popped(q@, h as int).contains(x) implies excl1
                            .contains(x) by {
                            let i = choose|i: int|
                                0 <= i < h && (#[trigger] q@[i]) as int == x;
                            assert(pre_q[i] as int == x);
                        }
                        assert forall|x: int| excl1.contains(x) implies popped(
                            q@,
                            h as int,
                        ).contains(x) by {
                            let i = choose|i: int|
                                0 <= i < h && (#[trigger] pre_q[i]) as int == x;
                            assert(q@[i] as int == x);
                        }
                    }
                }
            }
            e += 1;
            proof {
                assert forall|c2: usize| c2 < n implies indeg@[c2 as int] == cf(
                    cdv,
                    excl1,
                    c2,
                    n as int,
                ) + count_in(cdv[u as int].skip(e as int), c2) by {
                    lemma_count_skip(cdv[u as int], c2, e as int - 1);
                }
                // a node whose in-degree ever hits zero is enqueued right away
                assert forall|c2: usize| c2 < n && indeg@[c2 as int] == 0 implies q@.contains(
                    c2,
                ) by {
                    if c2 == c {
                        assert(pushed_c);
                        assert(q@[q@.len() - 1] == c2);
                    } else {
                        assert(indeg@[c2 as int] == pre_indeg[c2 as int]);
                        assert(q_before.contains(c2));
                        let m = choose|m: int| 0 <= m < q_before.len() && q_before[m] == c2;
                        assert(q@[m] == c2);
                    }
                }
            }
        }
        proof {
            assert(cdv[u as int].skip(row@.len() as int).len() == 0);
            assert forall|c: usize| c < n implies indeg@[c as int] == cf(
                cdv,
                popped(q@, h as int),
                c,
                n as int,
            ) by {
                assert(count_in(cdv[u as int].skip(row@.len() as int), c) == 0);
            }
        }
    }
    let topo_count = q.len();
    proof {
        assert(h == q@.len());
    }
    // fallback: append any node not ordered (a cycle), in ascending order
    let mut order: Vec<usize> = Vec::new();
    let mut acyclic: bool = true;
    let mut i: usize = 0;
    while i < q.len()
        invariant
            i <= q@.len(),
            order@ == q@.take(i as int),
        decreases q@.len() - i,
    {
        let v = q[i];
        order.push(v);
        i += 1;
        proof {
            assert(order@ =~= q@.take(i as int));
        }
    }
    proof {
        assert(q@.take(q@.len() as int) =~= q@);
    }
    let mut c2: usize = 0;
    while c2 < n
        invariant
            c2 <= n,
            n == cdv.len(),
            q@.no_duplicates(),
            forall|i2: int| 0 <= i2 < q@.len() ==> (#[trigger] q@[i2]) < n,
            forall|i2: int, pp: int|
                0 <= i2 < q@.len() && #[trigger] edge_to(cdv, pp, q@[i2]) ==> in_prefix(
                    q@,
                    i2,
                    pp,
                ),
            order@.len() >= q@.len(),
            order@.take(q@.len() as int) == q@,
            order@.no_duplicates(),
            forall|i2: int| 0 <= i2 < order@.len() ==> (#[trigger] order@[i2]) < n,
            forall|cc: usize| cc < c2 ==> order@.contains(cc),
            forall|i2: int| q@.len() <= i2 < order@.len() ==> !q@.contains(#[trigger] order@[i2]),
            forall|i2: int| q@.len() <= i2 < order@.len() ==> (#[trigger] order@[i2]) < c2,
            forall|i2: int, j2: int|
                q@.len() <= i2 < j2 < order@.len() ==> (#[trigger] order@[i2]) < (
                #[trigger] order@[j2]),
            acyclic <==> order@.len() == q@.len(),
        decreases n - c2,
    {
        let mut found: bool = false;
        let mut j: usize = 0;
        while j < q.len()
            invariant
                j <= q@.len(),
                found <==> exists|j2: int| 0 <= j2 < j && (#[trigger] q@[j2]) == c2,
            decreases q@.len() - j,
        {
            if q[j] == c2 {
                found = true;
            }
            j += 1;
        }
        let ghost pre_o = order@;
        if !found {
            order.push(c2);
            acyclic = false;
            proof {
                assert(!q@.contains(c2));
                assert(order@.take(q@.len() as int) =~= pre_o.take(q@.len() as int));
                // distinctness: c2 is in neither part of the old order
                assert(!pre_o.contains(c2)) by {
                    if pre_o.contains(c2) {
                        let m = choose|m: int| 0 <= m < pre_o.len() && pre_o[m] == c2;
                        if m < q@.len() {
                            assert(pre_o.take(q@.len() as int)[m] == pre_o[m]);
                            assert(q@[m] == c2);
                        } else {
                            assert(pre_o[m] < c2);
                        }
                    }
                }
                assert(order@.no_duplicates()) by {
                    assert forall|a: int, b: int|
                        0 <= a < order@.len() && 0 <= b < order@.len() && a != b implies order@[a]
                        != order@[b] by {
                        if a < order@.len() - 1 && b < order@.len() - 1 {
                            assert(pre_o[a] != pre_o[b]);
                        } else if a == order@.len() - 1 && b < order@.len() - 1 {
                            if order@[a] == order@[b] {
                                assert(pre_o.contains(order@[a]));
                            }
                        } else if b == order@.len() - 1 && a < order@.len() - 1 {
                            if order@[a] == order@[b] {
                                assert(pre_o.contains(order@[b]));
                            }
                        }
                    }
                }
                assert forall|i2: int, j2: int|
                    q@.len() <= i2 < j2 < order@.len() implies (#[trigger] order@[i2]) < (
                #[trigger] order@[j2]) by {
                    if j2 == order@.len() - 1 {
                        assert(order@[i2] == pre_o[i2]);
                        assert(pre_o[i2] < c2);
                    } else {
                        assert(order@[i2] == pre_o[i2]);
                        assert(order@[j2] == pre_o[j2]);
                    }
                }
            }
        } else {
            proof {
                let j2 = choose|j2: int| 0 <= j2 < q@.len() && (#[trigger] q@[j2]) == c2;
                assert(order@.take(q@.len() as int)[j2] == c2);
                assert(order@[j2] == c2);
            }
        }
        c2 += 1;
        proof {
            assert forall|cc: usize| cc < c2 implies order@.contains(cc) by {
                if cc < c2 - 1 {
                    assert(pre_o.contains(cc));
                    let m = choose|m: int| 0 <= m < pre_o.len() && pre_o[m] == cc;
                    assert(order@[m] == pre_o[m]);
                    assert(order@[m] == cc);
                } else {
                    if found {
                        let j2 = choose|j2: int|
                            0 <= j2 < q@.len() && (#[trigger] q@[j2]) == cc;
                        assert(order@[j2] == cc);
                    } else {
                        assert(order@[order@.len() - 1] == cc);
                    }
                }
            }
        }
    }
    // depth assignment: below every parent, in topological order
    let mut depth: Vec<usize> = Vec::new();
    let mut z2: usize = 0;
    while z2 < n
        invariant
            z2 <= n,
            depth@.len() == z2,
            forall|c: int| 0 <= c < z2 ==> (#[trigger] depth@[c]) == 0,
        decreases n - z2,
    {
        depth.push(0);
        z2 += 1;
    }
    proof {
        lemma_distinct_bounded_len(order@, n);
        if acyclic {
            assert(order@ =~= q@);
        }
        assert(order@.take(0) =~= Seq::<usize>::empty());
    }
    let mut t: usize = 0;
    while t < order.len()
        invariant
            t <= order@.len(),
            n == cdv.len(),
            children@.len() == n,
            forall|pp: int| 0 <= pp < n ==> cdv[pp] == (#[trigger] children@[pp])@,
            forall|pp: int, e2: int|
                0 <= pp < n && 0 <= e2 < children@[pp]@.len() ==> (#[trigger] children@[pp]@[e2])
                    < n,
            depth@.len() == n,
            order@.no_duplicates(),
            order@.len() <= n,
            forall|i2: int| 0 <= i2 < order@.len() ==> (#[trigger] order@[i2]) < n,
            forall|c: int| 0 <= c < n ==> (#[trigger] depth@[c]) <= t,
            acyclic ==> order@.take(q@.len() as int) == q@ && order@.len() == q@.len()
                && q@.no_duplicates(),
            acyclic ==> forall|i2: int, pp: int|
                0 <= i2 < order@.len() && #[trigger] edge_to(cdv, pp, order@[i2]) ==> in_prefix(
                    order@,
                    i2,
                    pp,
                ),
            acyclic ==> forall|j2: int, pp: int|
                0 <= j2 < t && #[trigger] edge_to(cdv, pp, order@[j2]) ==> depth@[order@[j2] as int]
                    > depth@[pp],
            forall|c: usize|
                c < n && !order@.take(t as int).contains(c) ==> depth@[c as int] == 0,
            forall|j2: int|
                0 <= j2 < t && !has_parent_edge(cdv, #[trigger] order@[j2]) ==> depth@[order@[
                    j2
                ] as int] == 0,
            acyclic ==> forall|j2: int|
                0 <= j2 < t && has_parent_edge(cdv, #[trigger] order@[j2]) ==> exists|p3: int|
                    edge_to(cdv, p3, order@[j2]) && depth@[order@[j2] as int] == depth@[p3] + 1,
        decreases order@.len() - t,
    {
        let v = order[t];
        let mut d: usize = depth[v];
        let ghost d0 = depth@[v as int];
        proof {
            // v has not been processed yet, so its preset depth is zero
            assert(!order@.take(t as int).contains(v)) by {
                if order@.take(t as int).contains(v) {
                    let i3 = choose|i3: int|
                        0 <= i3 < t && #[trigger] order@.take(t as int)[i3] == v;
                    assert(order@[i3] == order@[t as int]);
                }
            }
            assert(d0 == 0);
        }
        let mut pp: usize = 0;
        while pp < n
            invariant
                pp <= n,
                v < n,
                t < order@.len(),
                v == order@[t as int],
                n == cdv.len(),
                children@.len() == n,
                forall|p3: int| 0 <= p3 < n ==> cdv[p3] == (#[trigger] children@[p3])@,
                depth@.len() == n,
                t < order@.len(),
                order@.len() <= n,
                forall|c: int| 0 <= c < n ==> (#[trigger] depth@[c]) <= t,
                d0 == 0,
                d0 <= d <= t + 1,
                forall|p3: int|
                    0 <= p3 < pp && edge_to(cdv, p3, v) ==> d > (#[trigger] depth@[p3]),
                d == d0 || exists|p3: int|
                    0 <= p3 < n && #[trigger] edge_to(cdv, p3, v) && d == depth@[p3] + 1,
            decreases n - pp,
        {
            let row = &children[pp];
            let mut e2: usize = 0;
            let mut hit: bool = false;
            while e2 < row.len()
                invariant
                    e2 <= row@.len(),
                    pp < n,
                    row@ == cdv[pp as int],
                    hit <==> count_in(cdv[pp as int].take(e2 as int), v) > 0,
                decreases row@.len() - e2,
            {
                proof {
                    lemma_count_take_step(cdv[pp as int], v, e2 as int);
                    lemma_count_nonneg(cdv[pp as int].take(e2 as int), v);
                }
                if row[e2] == v {
                    hit = true;
                }
                e2 += 1;
            }
            proof {
                assert(cdv[pp as int].take(row@.len() as int) =~= cdv[pp as int]);
            }
            if hit {
                proof {
                    assert(count_in(cdv[pp as int], v) > 0);
                    assert(edge_to(cdv, pp as int, v));
                }
                let dp = depth[pp];
                if dp + 1 > d {
                    d = dp + 1;
                }
            } else {
                proof {
                    lemma_count_nonneg(cdv[pp as int], v);
                    assert(!edge_to(cdv, pp as int, v));
                }
            }
            pp += 1;
        }
        let ghost depth_before = depth@;
        depth.set(v, d);
        t += 1;
        proof {
            // untouched nodes keep their preset zero
            assert forall|c: usize|
                c < n && !order@.take(t as int).contains(c) implies depth@[c as int] == 0 by {
                assert(order@.take(t as int)[t - 1] == v);
                assert(c != v);
                if order@.take(t as int - 1).contains(c) {
                    let i3 = choose|i3: int|
                        0 <= i3 < t - 1 && #[trigger] order@.take(t as int - 1)[i3] == c;
                    assert(order@.take(t as int)[i3] == c);
                }
                assert(depth@[c as int] == depth_before[c as int]);
            }
            // a parentless node keeps depth zero
            assert forall|j2: int|
                0 <= j2 < t && !has_parent_edge(cdv, #[trigger] order@[j2])
                implies depth@[order@[j2] as int] == 0 by {
                if j2 < t - 1 {
                    assert(order@[j2] != v);
                    assert(depth@[order@[j2] as int] == depth_before[order@[j2] as int]);
                } else {
                    assert(order@[j2] == v);
                    if d != d0 {
                        let p3 = choose|p3: int|
                            0 <= p3 < n && #[trigger] edge_to(cdv, p3, v) && d == depth_before[
                                p3
                            ] + 1;
                        assert(has_parent_edge(cdv, v));
                    }
                    assert(depth@[v as int] == d);
                }
            }
            if acyclic {
                // a node with parents sits exactly one below one of them
                assert forall|j2: int|
                    0 <= j2 < t && has_parent_edge(cdv, #[trigger] order@[j2])
                    implies exists|p3: int|
                        edge_to(cdv, p3, order@[j2]) && depth@[order@[j2] as int] == depth@[p3]
                            + 1 by {
                    if j2 < t - 1 {
                        let p3 = choose|p3: int|
                            edge_to(cdv, p3, order@[j2]) && depth_before[order@[j2] as int]
                                == depth_before[p3] + 1;
                        assert(in_prefix(order@, j2, p3));
                        let i3 = choose|i3: int|
                            0 <= i3 < j2 && (#[trigger] order@[i3]) as int == p3;
                        assert(order@[j2] != v);
                        assert(order@[i3] != v);
                        assert(depth@[order@[j2] as int] == depth_before[order@[j2] as int]);
                        assert(depth@[p3] == depth_before[p3]);
                        assert(edge_to(cdv, p3, order@[j2]) && depth@[order@[j2] as int]
                            == depth@[p3] + 1);
                    } else {
                        assert(order@[j2] == v);
                        let pw = choose|pw: int| #[trigger] edge_to(cdv, pw, v);
                        assert(d > depth_before[pw]);
                        assert(d >= 1);
                        assert(d != d0);
                        let p3 = choose|p3: int|
                            0 <= p3 < n && #[trigger] edge_to(cdv, p3, v) && d == depth_before[
                                p3
                            ] + 1;
                        assert(in_prefix(order@, j2, p3));
                        let i3 = choose|i3: int|
                            0 <= i3 < j2 && (#[trigger] order@[i3]) as int == p3;
                        assert(order@[i3] != v);
                        assert(depth@[p3] == depth_before[p3]);
                        assert(depth@[v as int] == d);
                        assert(edge_to(cdv, p3, order@[j2]) && depth@[order@[j2] as int]
                            == depth@[p3] + 1);
                    }
                }
            }
            if acyclic {
                assert forall|j2: int, p3: int|
                    0 <= j2 < t && #[trigger] edge_to(cdv, p3, order@[j2])
                    implies depth@[order@[j2] as int] > depth@[p3] by {
                    if j2 < t - 1 {
                        // earlier conclusions persist: neither side was rewritten
                        assert(in_prefix(order@, j2, p3));
                        let i3 = choose|i3: int|
                            0 <= i3 < j2 && (#[trigger] order@[i3]) as int == p3;
                        assert(order@[j2] != order@[t as int - 1]);
                        assert(order@[i3] != order@[t as int - 1]);
                    } else {
                        assert(order@[j2] == v);
                        assert(in_prefix(order@, j2, p3));
                        let i3 = choose|i3: int|
                            0 <= i3 < j2 && (#[trigger] order@[i3]) as int == p3;
                        assert(order@[i3] != v);
                        assert(depth@[v as int] == d);
                        assert(d > depth@[p3]);
                    }
                }
            }
        }
    }
    // group into layers by depth, ascending within each layer
    let mut layers: Vec<Vec<usize>> = Vec::new();
    let mut maxd: usize = 0;
    let mut c3: usize = 0;
    while c3 < n
        invariant
            c3 <= n,
            depth@.len() == n,
            forall|c: int| 0 <= c < c3 ==> (#[trigger] depth@[c]) <= maxd,
            c3 > 0 ==> exists|c: int| 0 <= c < c3 && (#[trigger] depth@[c]) == maxd,
            c3 == 0 ==> maxd == 0,
        decreases n - c3,
    {
        if depth[c3] > maxd {
            maxd = depth[c3];
        }
        c3 += 1;
    }
    if n > 0 {
        let mut d4: usize = 0;
        loop
            invariant_except_break
                layers@.len() == d4,
            invariant
                d4 <= maxd,
                depth@.len() == n,
                n > 0,
                forall|c: int| 0 <= c < n ==> (#[trigger] depth@[c]) <= maxd,
                forall|dd: int, cc: usize|
                    0 <= dd < d4 && cc < n ==> ((#[trigger] layers@[dd]@.contains(cc))
                        <==> depth@[cc as int] == dd),
                forall|dd: int, i3: int, j3: int|
                    0 <= dd < d4 && 0 <= i3 < j3 < layers@[dd]@.len()
                        ==> (#[trigger] layers@[dd]@[i3]) < (#[trigger] layers@[dd]@[j3]),
                forall|dd: int, i3: int|
                    0 <= dd < d4 && 0 <= i3 < layers@[dd]@.len() ==> (#[trigger] layers@[
                        dd
                    ]@[i3]) < n,
            ensures
                layers@.len() == maxd + 1,
                forall|dd: int, cc: usize|
                    0 <= dd < layers@.len() && cc < n ==> ((#[trigger] layers@[dd]@.contains(cc))
                        <==> depth@[cc as int] == dd),
                forall|dd: int, i3: int, j3: int|
                    0 <= dd < layers@.len() && 0 <= i3 < j3 < layers@[dd]@.len()
                        ==> (#[trigger] layers@[dd]@[i3]) < (#[trigger] layers@[dd]@[j3]),
                forall|dd: int, i3: int|
                    0 <= dd < layers@.len() && 0 <= i3 < layers@[dd]@.len() ==> (#[trigger] layers@[
                        dd
                    ]@[i3]) < n,
            decreases maxd - d4,
        {
            let mut layer: Vec<usize> = Vec::new();
            let mut c4: usize = 0;
            while c4 < n
                invariant
                    c4 <= n,
                    depth@.len() == n,
                    forall|cc: usize|
                        cc < c4 ==> ((#[trigger] layer@.contains(cc)) <==> depth@[cc as int]
                            == d4),
                    forall|i3: int|
                        0 <= i3 < layer@.len() ==> (#[trigger] layer@[i3]) < c4,
                    forall|i3: int, j3: int|
                        0 <= i3 < j3 < layer@.len() ==> (#[trigger] layer@[i3]) < (
                        #[trigger] layer@[j3]),
                decreases n - c4,
            {
                let ghost pre_l = layer@;
                if depth[c4] == d4 {
                    layer.push(c4);
                }
                c4 += 1;
                proof {
                    assert forall|cc: usize| cc < c4 implies ((#[trigger] layer@.contains(cc))
                        <==> depth@[cc as int] == d4) by {
                        if cc < c4 - 1 {
                            if pre_l.contains(cc) {
                                let m = choose|m: int|
                                    0 <= m < pre_l.len() && pre_l[m] == cc;
                                assert(layer@[m] == cc);
                            }
                            if layer@.contains(cc) {
                                let m = choose|m: int|
                                    0 <= m < layer@.len() && layer@[m] == cc;
                                if m < pre_l.len() {
                                    assert(pre_l[m] == cc);
                                } else {
                                    assert(layer@[m] == c4 - 1);
                                }
                            }
                        } else {
                            if depth@[cc as int] == d4 {
                                assert(layer@[layer@.len() - 1] == cc);
                            } else {
                                if layer@.contains(cc) {
                                    let m = choose|m: int|
                                        0 <= m < layer@.len() && layer@[m] == cc;
                                    if m < pre_l.len() {
                                        assert(pre_l[m] < c4 - 1);
                                    }
                                }
                            }
                        }
                    }
                }
            }
            layers.push(layer);
            proof {
                assert(layers@[d4 as int] == layer);
                assert forall|dd: int, cc: usize|
                    0 <= dd < d4 + 1 && cc < n implies ((#[trigger] layers@[dd]@.contains(cc))
                    <==> depth@[cc as int] == dd) by {}
                assert forall|dd: int, i3: int, j3: int|
                    0 <= dd < d4 + 1 && 0 <= i3 < j3 < layers@[dd]@.len()
                    implies (#[trigger] layers@[dd]@[i3]) < (#[trigger] layers@[dd]@[j3]) by {}
                assert forall|dd: int, i3: int|
                    0 <= dd < d4 + 1 && 0 <= i3 < layers@[dd]@.len() implies (#[trigger] layers@[
                    dd
                ]@[i3]) < n by {}
            }
            if d4 == maxd {
                break;
            }
            d4 += 1;
        }
    }
    let r = LayeredOrder { order, topo_count, acyclic, depth, layers };
    proof {
        // the order holds every index exactly once
        lemma_contains_all_len(r.order@, n);
        lemma_distinct_bounded_len(r.order@, n);
        assert(r.order@.len() == n);
        // the topological prefix is the queue, so its edges go forward
        assert forall|i: int, p: int|
            0 <= i < r.topo_count && #[trigger] edge_to(cdv, p, r.order@[i])
            implies in_prefix(r.order@, i, p) by {
            assert(r.order@.take(q@.len() as int)[i] == r.order@[i]);
            assert(r.order@[i] == q@[i]);
            assert(edge_to(cdv, p, q@[i]));
            assert(in_prefix(q@, i, p));
            let i2 = choose|i2: int| 0 <= i2 < i && (#[trigger] q@[i2]) as int == p;
            assert(r.order@.take(q@.len() as int)[i2] == r.order@[i2]);
            assert((r.order@[i2]) as int == p);
        }
        // the prefix starts with the parentless nodes, in ascending order
        assert forall|i: int, j: int|
            0 <= i < j < r.topo_count && !has_parent_edge(cdv, #[trigger] r.order@[j])
            implies !has_parent_edge(cdv, #[trigger] r.order@[i]) && r.order@[i]
            < r.order@[j] by {
            assert(r.order@.take(q@.len() as int)[i] == r.order@[i]);
            assert(r.order@.take(q@.len() as int)[j] == r.order@[j]);
            assert(r.order@[i] == q@[i]);
            assert(r.order@[j] == q@[j]);
            if j >= nseeds {
                assert(has_parent_edge(cdv, q@[j]));
            }
            assert(j < nseeds);
        }
        // the acyclic flag holds exactly when a topological numbering exists
        if r.acyclic {
            let rankf = |x: usize| pos_in(r.order@, x);
            assert(is_topo_rank(cdv, rankf)) by {
                assert forall|p: int, cc: usize| #[trigger] edge_to(cdv, p, cc) implies rankf(
                    (p as usize),
                ) < rankf(cc) by {
                    lemma_count_pos_contains(cdv[p], cc);
                    let ei = choose|ei: int| 0 <= ei < cdv[p].len() && cdv[p][ei] == cc;
                    assert(children@[p]@[ei] == cc);
                    assert(cc < n);
                    assert(r.order@.contains(cc));
                    let ic = pos_in(r.order@, cc);
                    assert(0 <= ic < r.order@.len() && r.order@[ic] == cc);
                    assert(edge_to(cdv, p, r.order@[ic]));
                    assert(in_prefix(r.order@, ic, p));
                    let i2 = choose|i2: int|
                        0 <= i2 < ic && (#[trigger] r.order@[i2]) as int == p;
                    assert(r.order@.contains((p as usize)));
                    let ip = pos_in(r.order@, (p as usize));
                    assert(0 <= ip < r.order@.len() && r.order@[ip] == (p as usize));
                    if ip != i2 {
                        assert(r.order@[ip] == r.order@[i2]);
                        assert(false);
                    }
                    assert(rankf((p as usize)) == i2);
                    assert(rankf(cc) == ic);
                }
            }
            assert(cycle_free(cdv));
        } else {
            assert(q@.len() < n);
            assert(!cycle_free(cdv)) by {
                if cycle_free(cdv) {
                    let rankf = choose|rk: spec_fn(usize) -> int| #[trigger] is_topo_rank(
                        cdv,
                        rk,
                    );
                    let stuck = Set::new(|x: usize| x < n && !q@.contains(x));
                    // some node was never ordered
                    assert(exists|x: usize| x < n && !(#[trigger] q@.contains(x))) by {
                        if forall|x: usize| x < n ==> #[trigger] q@.contains(x) {
                            lemma_contains_all_len(q@, n);
                        }
                    }
                    let x = choose|x: usize| x < n && !(#[trigger] q@.contains(x));
                    assert(stuck.contains(x));
                    // every unordered node still has an unordered parent
                    assert forall|rr: usize| #[trigger] stuck.contains(rr) implies rr < n
                        && exists|p: int|
                        0 <= p < n && stuck.contains((p as usize)) && edge_to(cdv, p, rr) by {
                        assert(indeg@[rr as int] == cf(cdv, popped(q@, h as int), rr, n as int));
                        assert(indeg@[rr as int] != 0);
                        lemma_cf_bounds(cdv, popped(q@, h as int), rr, n as int);
                        lemma_cf_pos_has_term(cdv, popped(q@, h as int), rr, n as int);
                        let p = choose|p: int|
                            0 <= p < n && !popped(q@, h as int).contains(p) && count_in(
                                #[trigger] cdv[p],
                                rr,
                            ) > 0;
                        assert(!q@.contains((p as usize))) by {
                            if q@.contains((p as usize)) {
                                let m = choose|m: int|
                                    0 <= m < q@.len() && q@[m] == (p as usize);
                                assert(0 <= m < h && (q@[m]) as int == p);
                                assert(popped(q@, h as int).contains(p));
                            }
                        }
                        assert(stuck.contains((p as usize)));
                        assert(edge_to(cdv, p, rr));
                    }
                    lemma_stuck_not_rank(cdv, n, stuck, rankf, x);
                    assert(false);
                }
            }
        }
        // depth values are pinned node by node
        assert forall|cc: usize|
            cc < n && !has_parent_edge(cdv, cc) implies r.depth@[cc as int] == 0 by {
            assert(r.order@.contains(cc));
            let m = choose|m: int| 0 <= m < r.order@.len() && r.order@[m] == cc;
            assert(!has_parent_edge(cdv, r.order@[m]));
            assert(r.depth@[r.order@[m] as int] == 0);
        }
        if r.acyclic {
            assert forall|cc: usize|
                cc < n && #[trigger] has_parent_edge(cdv, cc) implies exists|p: int|
                edge_to(cdv, p, cc) && r.depth@[cc as int] == r.depth@[p] + 1 by {
                assert(r.order@.contains(cc));
                let m = choose|m: int| 0 <= m < r.order@.len() && r.order@[m] == cc;
                assert(has_parent_edge(cdv, r.order@[m]));
                let p3 = choose|p3: int|
                    edge_to(cdv, p3, r.order@[m]) && r.depth@[r.order@[m] as int] == r.depth@[
                        p3
                    ] + 1;
                assert(edge_to(cdv, p3, cc) && r.depth@[cc as int] == r.depth@[p3] + 1);
            }
        }
        if r.acyclic {
            assert forall|p3: int, cc: usize|
                #[trigger] edge_to(cdv, p3, cc) && cc < n implies r.depth@[cc as int] > r.depth@[
                p3
            ] by {
                // every node occurs in the order, so the claim above applies
                assert(r.order@.contains(cc));
                let m = choose|m: int| 0 <= m < r.order@.len() && r.order@[m] == cc;
                assert(edge_to(cdv, p3, r.order@[m]));
                assert(r.depth@[r.order@[m] as int] > r.depth@[p3]);
            }
        }
        assert forall|c: int| 0 <= c < n implies (#[trigger] r.depth@[c]) < r.layers@.len() by {}
    }
    r
}

/// Every row's contribution is inside the total for the full prefix.
proof fn lemma_cf_ge_term_all(ch: Seq<Seq<usize>>, excl: Set<int>, c: usize, p: int)
    requires
        0 <= p < ch.len(),
    ensures
        cf(ch, excl, c, p as int) + count_in(ch[p], c) <= edges_upto(ch, ch.len() as int),
{
    lemma_cf_bounds(ch, excl, c, p);
    lemma_count_nonneg(ch[p], c);
    lemma_edges_mono(ch, p + 1, ch.len() as int);
    assert(edges_upto(ch, p + 1) == edges_upto(ch, p) + ch[p].len());
}

proof fn lemma_edges_mono(ch: Seq<Seq<usize>>, j1: int, j2: int)
    requires
        0 <= j1 <= j2,
    ensures
        edges_upto(ch, j1) <= edges_upto(ch, j2),
    decreases j2 - j1,
{
    if j1 < j2 {
        lemma_edges_mono(ch, j1, j2 - 1);
        if 0 <= j2 - 1 < ch.len() {
            lemma_count_nonneg(ch[j2 - 1], 0);
        }
    }
}

// ---------------------------------------------------------------------------
// Crossing reduction: barycenter passes over the layers.
// ---------------------------------------------------------------------------

/// One layer slot with its barycenter key: the mean neighbor position in
/// the adjacent layer, held as an exact fraction. A zero denominator means
/// the slot has no neighbor there and sorts after all others; ties fall
/// back to the node index (which is name rank).
#[derive(Clone, Copy)]
pub struct BaryEntry {
    pub node: usize,
    pub num: u64,
    pub den: u64,
}

/// The barycenter order: finite keys first by mean (compared exactly by
/// cross-multiplication), then by node index.
pub open spec fn bary_le(a: BaryEntry, b: BaryEntry) -> bool {
    if (a.den == 0) != (b.den == 0) {
        a.den != 0
    } else if a.den != 0 && a.num * b.den != b.num * a.den {
        a.num * b.den < b.num * a.den
    } else {
        a.node <= b.node
    }
}

/// Exact decision procedure for the barycenter order.
fn bary_le_exec(a: &BaryEntry, b: &BaryEntry) -> (r: bool)
    ensures
        r == bary_le(*a, *b),
{
    proof {
        assert((a.num as u128) * (b.den as u128) <= u128::MAX) by (nonlinear_arith)
            requires
                a.num <= u64::MAX && b.den <= u64::MAX,
        ;
        assert((b.num as u128) * (a.den as u128) <= u128::MAX) by (nonlinear_arith)
            requires
                b.num <= u64::MAX && a.den <= u64::MAX,
        ;
    }
    if (a.den == 0) != (b.den == 0) {
        a.den != 0
    } else if a.den != 0 {
        let ca = (a.num as u128) * (b.den as u128);
        let cb = (b.num as u128) * (a.den as u128);
        if ca != cb {
            ca < cb
        } else {
            a.node <= b.node
        }
    } else {
        a.node <= b.node
    }
}

/// The barycenter order is connected.
proof fn lemma_bary_le_conn(a: BaryEntry, b: BaryEntry)
    ensures
        bary_le(a, b) || bary_le(b, a),
{
}

/// The barycenter order is transitive.
proof fn lemma_bary_le_trans(a: BaryEntry, b: BaryEntry, c: BaryEntry)
    requires
        bary_le(a, b),
        bary_le(b, c),
    ensures
        bary_le(a, c),
{
    if a.den != 0 && b.den != 0 && c.den != 0 {
        let an = a.num as int;
        let ad = a.den as int;
        let bn = b.num as int;
        let bd = b.den as int;
        let cn = c.num as int;
        let cd = c.den as int;
        assert(an * bd <= bn * ad);
        assert(bn * cd <= cn * bd);
        assert((an * cd) * bd <= (cn * ad) * bd) by (nonlinear_arith)
            requires
                an * bd <= bn * ad,
                bn * cd <= cn * bd,
                ad >= 0,
                cd >= 0,
        ;
        assert(an * cd <= cn * ad) by (nonlinear_arith)
            requires
                (an * cd) * bd <= (cn * ad) * bd,
                bd > 0,
        ;
        if an * bd < bn * ad {
            assert((an * cd) * bd < (cn * ad) * bd) by (nonlinear_arith)
                requires
                    an * bd < bn * ad,
                    bn * cd <= cn * bd,
                    ad >= 0,
                    cd > 0,
            ;
            assert(an * cd < cn * ad) by (nonlinear_arith)
                requires
                    (an * cd) * bd < (cn * ad) * bd,
                    bd > 0,
            ;
        } else if bn * cd < cn * bd {
            assert((an * cd) * bd < (cn * ad) * bd) by (nonlinear_arith)
                requires
                    an * bd <= bn * ad,
                    bn * cd < cn * bd,
                    ad > 0,
                    cd >= 0,
            ;
            assert(an * cd < cn * ad) by (nonlinear_arith)
                requires
                    (an * cd) * bd < (cn * ad) * bd,
                    bd > 0,
            ;
        }
    }
}

/// Position of `p` in an adjacent layer, zero when it is absent.
pub open spec fn adj_pos(adj: Seq<usize>, p: usize) -> int {
    if adj.contains(p) {
        adj.index_of(p)
    } else {
        0
    }
}

/// Numerator of the parent barycenter key of `v`: over rows `[0, j)`, the
/// edge count into `v` weighted by each row's position in the layer above.
pub open spec fn pk_num(ch: Seq<Seq<usize>>, above: Seq<usize>, v: usize, j: int) -> int
    decreases j,
{
    if j <= 0 {
        0
    } else {
        pk_num(ch, above, v, j - 1) + count_in(ch[j - 1], v) * adj_pos(above, (j - 1) as usize)
    }
}

/// Denominator of the parent barycenter key of `v`: the number of edges
/// into `v` declared by rows `[0, j)`.
pub open spec fn pk_den(ch: Seq<Seq<usize>>, v: usize, j: int) -> int
    decreases j,
{
    if j <= 0 {
        0
    } else {
        pk_den(ch, v, j - 1) + count_in(ch[j - 1], v)
    }
}

/// Numerator of the child barycenter key: the positions in the layer
/// below of the first `e` children, absent children counting zero.
pub open spec fn ck_num(row: Seq<usize>, below: Seq<usize>, e: int) -> int
    decreases e,
{
    if e <= 0 {
        0
    } else {
        ck_num(row, below, e - 1) + adj_pos(below, row[e - 1])
    }
}

/// The keyed entry of slot `v` for a top-down pass: the mean position of
/// its parents in the layer above, as an exact fraction.
pub open spec fn parent_entry(ch: Seq<Seq<usize>>, above: Seq<usize>, v: usize) -> BaryEntry {
    BaryEntry {
        node: v,
        num: pk_num(ch, above, v, ch.len() as int) as u64,
        den: pk_den(ch, v, ch.len() as int) as u64,
    }
}

/// The keyed entry of slot `v` for a bottom-up pass: the mean position of
/// its children in the layer below.
pub open spec fn child_entry(ch: Seq<Seq<usize>>, below: Seq<usize>, v: usize) -> BaryEntry {
    BaryEntry {
        node: v,
        num: ck_num(ch[v as int], below, ch[v as int].len() as int) as u64,
        den: ch[v as int].len() as u64,
    }
}

/// Slot order within a layer reordered top-down: barycenter order of the
/// parent keys against the layer above.
pub open spec fn le_by_parents(ch: Seq<Seq<usize>>, above: Seq<usize>, a: usize, b: usize) -> bool {
    bary_le(parent_entry(ch, above, a), parent_entry(ch, above, b))
}

/// Slot order within a layer reordered bottom-up: barycenter order of the
/// child keys against the layer below.
pub open spec fn le_by_children(ch: Seq<Seq<usize>>, below: Seq<usize>, a: usize, b: usize) -> bool {
    bary_le(child_entry(ch, below, a), child_entry(ch, below, b))
}

/// `outp` holds exactly the nodes of `inp`, each once.
pub open spec fn same_nodes(inp: Seq<usize>, outp: Seq<usize>) -> bool {
    &&& outp.len() == inp.len()
    &&& outp.no_duplicates()
    &&& forall|x: usize| outp.contains(x) <==> inp.contains(x)
}

/// One top-down barycenter pass: the first layer stands, and every later
/// layer is its own nodes sorted by mean parent position in the layer
/// above as this pass has already reordered it. Since each layer is
/// duplicate-free and ties break by node index, the sorted permutation is
/// unique, so this pins the pass's output.
pub open spec fn down_pass(ch: Seq<Seq<usize>>, inp: Seq<Seq<usize>>, outp: Seq<Seq<usize>>) -> bool {
    &&& outp.len() == inp.len()
    &&& inp.len() > 0 ==> outp[0] == inp[0]
    &&& forall|d: int| 1 <= d < inp.len() ==> same_nodes(inp[d], #[trigger] outp[d])
    &&& forall|d: int, i: int, j: int|
        1 <= d < inp.len() && 0 <= i < j < outp[d].len() ==> le_by_parents(
            ch,
            outp[d - 1],
            #[trigger] outp[d][i],
            #[trigger] outp[d][j],
        )
}

/// One bottom-up barycenter pass: the last layer stands, and every
/// earlier layer is its own nodes sorted by mean child position in the
/// layer below as this pass has already reordered it.
pub open spec fn up_pass(ch: Seq<Seq<usize>>, inp: Seq<Seq<usize>>, outp: Seq<Seq<usize>>) -> bool {
    &&& outp.len() == inp.len()
    &&& inp.len() > 0 ==> outp[inp.len() - 1] == inp[inp.len() - 1]
    &&& forall|d: int| 0 <= d < inp.len() - 1 ==> same_nodes(inp[d], #[trigger] outp[d])
    &&& forall|d: int, i: int, j: int|
        0 <= d < inp.len() - 1 && 0 <= i < j < outp[d].len() ==> le_by_children(
            ch,
            outp[d + 1],
            #[trigger] outp[d][i],
            #[trigger] outp[d][j],
        )
}

/// Sorts one layer's entries by the barycenter order. The result holds
/// exactly the input entries.
fn sort_entries(v: Vec<BaryEntry>) -> (r: Vec<BaryEntry>)
    ensures
        r@.to_multiset() == v@.to_multiset(),
        vstd::relations::sorted_by(r@, |x: BaryEntry, y: BaryEntry| bary_le(x, y)),
{
    let ghost leq = |x: BaryEntry, y: BaryEntry| bary_le(x, y);
    let mut rest = v;
    let mut out: Vec<BaryEntry> = Vec::new();
    proof {
        broadcast use vstd::seq_lib::group_to_multiset_ensures;

        assert(out@.to_multiset().add(rest@.to_multiset()) =~= v@.to_multiset());
    }
    while rest.len() > 0
        invariant
            leq == (|x: BaryEntry, y: BaryEntry| bary_le(x, y)),
            vstd::relations::sorted_by(out@, leq),
            out@.to_multiset().add(rest@.to_multiset()) == v@.to_multiset(),
        decreases rest.len(),
    {
        let ghost pre_rest = rest@;
        let x = rest.pop().unwrap();
        proof {
            broadcast use vstd::seq_lib::group_to_multiset_ensures;

            assert(rest@ =~= pre_rest.drop_last());
            assert(pre_rest.drop_last() =~= pre_rest.remove(pre_rest.len() - 1));
            assert(rest@.to_multiset() =~= pre_rest.to_multiset().remove(x));
            assert(pre_rest.to_multiset().contains(pre_rest[pre_rest.len() - 1]));
        }
        let ghost pre_out = out@;
        let mut j: usize = 0;
        loop
            invariant
                j <= out.len(),
                out@ == pre_out,
                leq == (|x2: BaryEntry, y2: BaryEntry| bary_le(x2, y2)),
                vstd::relations::sorted_by(out@, leq),
                forall|k: int| 0 <= k < j ==> !bary_le(x, #[trigger] out@[k]),
            ensures
                j <= out.len(),
                out@ == pre_out,
                forall|k: int| 0 <= k < j ==> !bary_le(x, #[trigger] out@[k]),
                j < out.len() ==> bary_le(x, out@[j as int]),
            decreases out.len() - j,
        {
            if j >= out.len() {
                break;
            }
            if bary_le_exec(&x, &out[j]) {
                break;
            }
            j += 1;
        }
        out.insert(j, x);
        proof {
            broadcast use vstd::seq_lib::group_to_multiset_ensures;
            broadcast use vstd::multiset::group_multiset_axioms;

            pre_out.insert_ensures(j as int, x);
            assert(out@ =~= pre_out.insert(j as int, x));
            crate::order::lemma_to_multiset_insert(pre_out, j as int, x);
            assert forall|p: int, q2: int| 0 <= p < q2 < out@.len() implies #[trigger] leq(
                out@[p],
                out@[q2],
            ) by {
                if q2 < j {
                    assert(leq(pre_out[p], pre_out[q2]));
                } else if p < j && q2 == j {
                    assert(!bary_le(x, pre_out[p]));
                    lemma_bary_le_conn(x, pre_out[p]);
                } else if p < j && q2 > j {
                    assert(leq(pre_out[p], pre_out[q2 - 1]));
                } else if p == j {
                    if q2 == j + 1 {
                        assert(bary_le(x, pre_out[j as int]));
                    } else {
                        assert(leq(pre_out[j as int], pre_out[q2 - 1]));
                        lemma_bary_le_trans(x, pre_out[j as int], pre_out[q2 - 1]);
                    }
                } else {
                    assert(leq(pre_out[p - 1], pre_out[q2 - 1]));
                }
            }
            assert(out@.to_multiset().add(rest@.to_multiset()) =~= v@.to_multiset());
        }
    }
    proof {
        broadcast use vstd::seq_lib::group_to_multiset_ensures;

        assert(rest@ =~= Seq::<BaryEntry>::empty());
        assert(out@.to_multiset() =~= v@.to_multiset());
    }
    out
}

/// Reads the node of each entry, in order.
fn entry_nodes(es: &Vec<BaryEntry>) -> (r: Vec<usize>)
    ensures
        r@.len() == es@.len(),
        forall|i: int| 0 <= i < es@.len() ==> r@[i] == (#[trigger] es@[i]).node,
{
    let mut r: Vec<usize> = Vec::new();
    let mut i: usize = 0;
    while i < es.len()
        invariant
            i <= es@.len(),
            r@.len() == i,
            forall|m: int| 0 <= m < i ==> r@[m] == (#[trigger] es@[m]).node,
        decreases es@.len() - i,
    {
        let nd = es[i].node;
        r.push(nd);
        i += 1;
    }
    r
}

/// Entry multisets with duplicate-free node fields carry the node set:
/// rearranged entries keep exactly the same nodes, each once.
proof fn lemma_entry_perm(
    es1: Seq<BaryEntry>,
    es2: Seq<BaryEntry>,
    nodes1: Seq<usize>,
    nodes2: Seq<usize>,
)
    requires
        es1.to_multiset() == es2.to_multiset(),
        nodes1.len() == es1.len(),
        forall|i: int| 0 <= i < es1.len() ==> nodes1[i] == (#[trigger] es1[i]).node,
        nodes2.len() == es2.len(),
        forall|i: int| 0 <= i < es2.len() ==> nodes2[i] == (#[trigger] es2[i]).node,
        nodes1.no_duplicates(),
    ensures
        nodes2.len() == nodes1.len(),
        nodes2.no_duplicates(),
        forall|x: usize| nodes2.contains(x) <==> nodes1.contains(x),
{
    broadcast use vstd::seq_lib::group_to_multiset_ensures;

    assert(es1.no_duplicates()) by {
        assert forall|i: int, j: int|
            0 <= i < es1.len() && 0 <= j < es1.len() && i != j implies es1[i] != es1[j] by {
            assert(nodes1[i] != nodes1[j]);
        }
    }
    assert(es1.len() == es1.to_multiset().len());
    assert(es2.len() == es2.to_multiset().len());
    assert(nodes2.len() == nodes1.len());
    // every rearranged entry is one of the originals
    assert forall|i: int| 0 <= i < es2.len() implies es1.contains(#[trigger] es2[i]) by {
        assert(es2.to_multiset().contains(es2[i]));
        assert(es1.to_multiset().count(es2[i]) > 0);
    }
    assert forall|i: int, j: int|
        0 <= i < nodes2.len() && 0 <= j < nodes2.len() && i != j implies nodes2[i] != nodes2[
        j
    ] by {
        if nodes2[i] == nodes2[j] {
            let a = choose|a: int| 0 <= a < es1.len() && es1[a] == es2[i];
            let b = choose|b: int| 0 <= b < es1.len() && es1[b] == es2[j];
            assert(nodes1[a] == nodes2[i]);
            assert(nodes1[b] == nodes2[j]);
            if a != b {
                assert(nodes1[a] != nodes1[b]);
                assert(false);
            }
            assert(es2[i] == es2[j]);
            // one original entry cannot fill two slots
            es1.lemma_multiset_has_no_duplicates();
            assert(es1.to_multiset().count(es2[i]) == 1);
            assert(es2.remove(i).to_multiset() =~= es2.to_multiset().remove(es2[i]));
            if i < j {
                assert(es2.remove(i)[j - 1] == es2[j]);
                assert(es2.remove(i).to_multiset().contains(es2[j]));
            } else {
                assert(es2.remove(i)[j] == es2[j]);
                assert(es2.remove(i).to_multiset().contains(es2[j]));
            }
            assert(es2.to_multiset().count(es2[i]) >= 2);
            assert(false);
        }
    }
    assert forall|x: usize| nodes2.contains(x) implies nodes1.contains(x) by {
        let i = choose|i: int| 0 <= i < nodes2.len() && nodes2[i] == x;
        assert(es1.contains(es2[i]));
        let a = choose|a: int| 0 <= a < es1.len() && es1[a] == es2[i];
        assert(nodes1[a] == x);
    }
    assert forall|x: usize| nodes1.contains(x) implies nodes2.contains(x) by {
        let i = choose|i: int| 0 <= i < nodes1.len() && nodes1[i] == x;
        assert(es2.to_multiset().count(es1[i]) > 0);
        assert(es2.contains(es1[i]));
        let a = choose|a: int| 0 <= a < es2.len() && es2[a] == es1[i];
        assert(nodes2[a] == x);
    }
}

/// Barycenter key of one slot from the positions of its parents in the
/// layer above: the fraction (sum of parent positions, zero for parents
/// outside that layer) / (number of parent edges). The key values are
/// bounded by the edge budget; they are not otherwise part of any contract.
fn key_from_parents(
    v: usize,
    n: usize,
    children: &Vec<Vec<usize>>,
    posv: &Vec<u64>,
    inadj: &Vec<bool>,
    Ghost(above): Ghost<Seq<usize>>,
) -> (r: BaryEntry)
    requires
        v < n,
        children@.len() == n,
        posv@.len() == n,
        inadj@.len() == n,
        forall|i: int| 0 <= i < n ==> (#[trigger] posv@[i]) < n,
        edges_upto(children.deep_view(), n as int) <= u32::MAX,
        n <= u32::MAX,
        above.no_duplicates(),
        forall|p: usize| p < n ==> ((#[trigger] inadj@[p as int]) <==> above.contains(p)),
        forall|k: int|
            0 <= k < above.len() ==> (#[trigger] above[k]) < n && posv@[above[k] as int] as int
                == k,
    ensures
        r == parent_entry(children.deep_view(), above, v),
{
    let ghost cdv = children.deep_view();
    proof {
        assert(cdv.len() == n);
        assert forall|p: int| 0 <= p < n implies cdv[p] == (#[trigger] children@[p])@ by {
            assert(children.deep_view()[p] =~= children@[p].deep_view());
            assert(children@[p].deep_view() =~= children@[p]@);
        }
        lemma_edges_mono(cdv, 0, n as int);
    }
    let mut num: u64 = 0;
    let mut den: u64 = 0;
    let mut pp: usize = 0;
    while pp < n
        invariant
            pp <= n,
            v < n,
            n == cdv.len(),
            children@.len() == n,
            posv@.len() == n,
            inadj@.len() == n,
            forall|i: int| 0 <= i < n ==> (#[trigger] posv@[i]) < n,
            forall|p: int| 0 <= p < n ==> cdv[p] == (#[trigger] children@[p])@,
            edges_upto(cdv, n as int) <= u32::MAX,
            n <= u32::MAX,
            den as int <= edges_upto(cdv, pp as int),
            num as int <= den as int * (n as int - 1),
            above.no_duplicates(),
            forall|p: usize| p < n ==> ((#[trigger] inadj@[p as int]) <==> above.contains(p)),
            forall|k: int|
                0 <= k < above.len() ==> (#[trigger] above[k]) < n && posv@[above[k] as int] as int
                    == k,
            num as int == pk_num(cdv, above, v, pp as int),
            den as int == pk_den(cdv, v, pp as int),
        decreases n - pp,
    {
        let row = &children[pp];
        let mut cnt: usize = 0;
        let mut e: usize = 0;
        proof {
            assert(cdv[pp as int].take(0) =~= Seq::<usize>::empty());
        }
        while e < row.len()
            invariant
                e <= row@.len(),
                pp < n,
                row@ == cdv[pp as int],
                cnt as int == count_in(cdv[pp as int].take(e as int), v),
                cnt <= e,
            decreases row@.len() - e,
        {
            proof {
                lemma_count_take_step(cdv[pp as int], v, e as int);
            }
            if row[e] == v {
                cnt = cnt + 1;
            }
            e += 1;
        }
        proof {
            assert(cdv[pp as int].take(row@.len() as int) =~= cdv[pp as int]);
            assert(cnt as int == count_in(cdv[pp as int], v));
            lemma_count_nonneg(cdv[pp as int], v);
            lemma_edges_mono(cdv, pp as int + 1, n as int);
            assert(edges_upto(cdv, pp as int + 1) == edges_upto(cdv, pp as int) + cdv[
                pp as int
            ].len());
            assert(den as int + cnt as int <= edges_upto(cdv, pp as int + 1));
            assert(den as int + cnt as int <= u32::MAX);
        }
        let pos: u64 = if inadj[pp] {
            posv[pp]
        } else {
            0
        };
        proof {
            assert(pos < n);
            assert(pos as int == adj_pos(above, pp)) by {
                if inadj@[pp as int] {
                    assert(above.contains(pp));
                    assert(exists|i: int| 0 <= i <= above.len() - 1 && above[i] == pp);
                    let k0 = above.index_of(pp);
                    assert(0 <= k0 <= above.len() - 1 && above[k0] == pp);
                    assert(posv@[above[k0] as int] as int == k0);
                } else {
                    assert(!above.contains(pp));
                }
            }
            assert((cnt as int) * (pos as int) <= (cnt as int) * (n as int - 1))
                by (nonlinear_arith)
                requires
                    pos as int <= n as int - 1,
                    cnt as int >= 0,
            ;
            assert((cnt as int) * (n as int - 1) <= (u32::MAX as int) * (u32::MAX as int))
                by (nonlinear_arith)
                requires
                    0 <= cnt as int <= u32::MAX as int,
                    0 <= n as int - 1 <= u32::MAX as int,
            ;
            assert(num as int + (cnt as int) * (pos as int) <= (den as int + cnt as int) * (
            n as int - 1)) by (nonlinear_arith)
                requires
                    num as int <= den as int * (n as int - 1),
                    (cnt as int) * (pos as int) <= (cnt as int) * (n as int - 1),
                    cnt as int >= 0,
                    n as int >= 1,
            ;
            assert((den as int + cnt as int) * (n as int - 1) <= (u32::MAX as int) * (
            u32::MAX as int)) by (nonlinear_arith)
                requires
                    0 <= den as int + cnt as int <= u32::MAX as int,
                    0 <= n as int - 1 <= u32::MAX as int,
            ;
        }
        let ghost pos0 = pos as int;
        num = num + (cnt as u64) * pos;
        den = den + (cnt as u64);
        pp += 1;
        proof {
            assert(pk_num(cdv, above, v, pp as int) == pk_num(cdv, above, v, pp as int - 1)
                + count_in(cdv[pp as int - 1], v) * adj_pos(above, (pp - 1) as usize));
            assert(pk_den(cdv, v, pp as int) == pk_den(cdv, v, pp as int - 1) + count_in(
                cdv[pp as int - 1],
                v,
            ));
            assert((cnt as int) * pos0 == count_in(cdv[pp as int - 1], v) * adj_pos(
                above,
                (pp - 1) as usize,
            ));
        }
    }
    let r = BaryEntry { node: v, num, den };
    proof {
        assert(num as int == pk_num(cdv, above, v, n as int));
        assert(den as int == pk_den(cdv, v, n as int));
        assert(r == parent_entry(cdv, above, v));
    }
    r
}

/// Barycenter key of one slot from the positions of its children in the
/// layer below: (sum of child positions, zero for children outside that
/// layer) / (number of child edges).
fn key_from_children(
    v: usize,
    n: usize,
    children: &Vec<Vec<usize>>,
    posv: &Vec<u64>,
    inadj: &Vec<bool>,
    Ghost(below): Ghost<Seq<usize>>,
) -> (r: BaryEntry)
    requires
        v < n,
        children@.len() == n,
        posv@.len() == n,
        inadj@.len() == n,
        forall|i: int| 0 <= i < n ==> (#[trigger] posv@[i]) < n,
        forall|p: int, e: int|
            0 <= p < n && 0 <= e < children@[p]@.len() ==> (#[trigger] children@[p]@[e]) < n,
        edges_upto(children.deep_view(), n as int) <= u32::MAX,
        n <= u32::MAX,
        below.no_duplicates(),
        forall|p: usize| p < n ==> ((#[trigger] inadj@[p as int]) <==> below.contains(p)),
        forall|k: int|
            0 <= k < below.len() ==> (#[trigger] below[k]) < n && posv@[below[k] as int] as int
                == k,
    ensures
        r == child_entry(children.deep_view(), below, v),
{
    let ghost cdv = children.deep_view();
    proof {
        assert(cdv.len() == n);
        assert forall|p: int| 0 <= p < n implies cdv[p] == (#[trigger] children@[p])@ by {
            assert(children.deep_view()[p] =~= children@[p].deep_view());
            assert(children@[p].deep_view() =~= children@[p]@);
        }
        lemma_edges_mono(cdv, 0, v as int);
        lemma_edges_mono(cdv, v as int + 1, n as int);
        assert(edges_upto(cdv, v as int + 1) == edges_upto(cdv, v as int) + cdv[v as int].len());
        lemma_count_nonneg(cdv[v as int], 0);
        assert(cdv[v as int].len() <= u32::MAX);
    }
    let row = &children[v];
    let den: u64 = row.len() as u64;
    let mut num: u64 = 0;
    let mut e: usize = 0;
    while e < row.len()
        invariant
            e <= row@.len(),
            v < n,
            n == cdv.len(),
            row@ == cdv[v as int],
            row@.len() <= u32::MAX,
            posv@.len() == n,
            inadj@.len() == n,
            forall|i: int| 0 <= i < n ==> (#[trigger] posv@[i]) < n,
            forall|e2: int| 0 <= e2 < row@.len() ==> (#[trigger] row@[e2]) < n,
            n <= u32::MAX,
            num as int <= (e as int) * (n as int - 1),
            below.no_duplicates(),
            forall|p: usize| p < n ==> ((#[trigger] inadj@[p as int]) <==> below.contains(p)),
            forall|k: int|
                0 <= k < below.len() ==> (#[trigger] below[k]) < n && posv@[below[k] as int] as int
                    == k,
            num as int == ck_num(row@, below, e as int),
        decreases row@.len() - e,
    {
        let c = row[e];
        proof {
            assert(c < n);
        }
        let pos: u64 = if inadj[c] {
            posv[c]
        } else {
            0
        };
        proof {
            assert(pos < n);
            assert(pos as int == adj_pos(below, c)) by {
                if inadj@[c as int] {
                    assert(below.contains(c));
                    assert(exists|i: int| 0 <= i <= below.len() - 1 && below[i] == c);
                    let k0 = below.index_of(c);
                    assert(0 <= k0 <= below.len() - 1 && below[k0] == c);
                    assert(posv@[below[k0] as int] as int == k0);
                } else {
                    assert(!below.contains(c));
                }
            }
            assert(ck_num(row@, below, e as int + 1) == ck_num(row@, below, e as int) + adj_pos(
                below,
                row@[e as int],
            ));
            assert(num as int + pos as int <= (e as int + 1) * (n as int - 1))
                by (nonlinear_arith)
                requires
                    num as int <= (e as int) * (n as int - 1),
                    pos as int <= n as int - 1,
                    e as int >= 0,
                    n as int >= 1,
            ;
            assert((e as int + 1) * (n as int - 1) <= (u32::MAX as int) * (u32::MAX as int))
                by (nonlinear_arith)
                requires
                    0 <= e as int + 1 <= u32::MAX as int,
                    0 <= n as int - 1 <= u32::MAX as int,
            ;
        }
        num = num + pos;
        e += 1;
    }
    let r = BaryEntry { node: v, num, den };
    proof {
        assert(num as int == ck_num(cdv[v as int], below, cdv[v as int].len() as int));
        assert(den as int == cdv[v as int].len() as int);
        assert(r == child_entry(cdv, below, v));
    }
    r
}

/// One barycenter pass: reorders a layer by the mean position of each
/// slot's neighbors in the adjacent, already-ordered layer; slots with no
/// neighbor there sort after all others, and ties break by node index.
/// The layer keeps exactly its nodes, in barycenter key order.
fn barycenter_pass(
    layer: &Vec<usize>,
    adj: &Vec<usize>,
    children: &Vec<Vec<usize>>,
    n: usize,
    toward_parents: bool,
) -> (r: Vec<usize>)
    requires
        children@.len() == n,
        forall|p: int, e: int|
            0 <= p < n && 0 <= e < children@[p]@.len() ==> (#[trigger] children@[p]@[e]) < n,
        edges_upto(children.deep_view(), n as int) <= u32::MAX,
        n <= u32::MAX,
        layer@.no_duplicates(),
        forall|i: int| 0 <= i < layer@.len() ==> (#[trigger] layer@[i]) < n,
        adj@.no_duplicates(),
        adj@.len() <= n,
        forall|i: int| 0 <= i < adj@.len() ==> (#[trigger] adj@[i]) < n,
    ensures
        r@.len() == layer@.len(),
        r@.no_duplicates(),
        forall|x: usize| r@.contains(x) <==> layer@.contains(x),
        toward_parents ==> forall|i: int, j: int|
            0 <= i < j < r@.len() ==> le_by_parents(
                children.deep_view(),
                adj@,
                #[trigger] r@[i],
                #[trigger] r@[j],
            ),
        !toward_parents ==> forall|i: int, j: int|
            0 <= i < j < r@.len() ==> le_by_children(
                children.deep_view(),
                adj@,
                #[trigger] r@[i],
                #[trigger] r@[j],
            ),
{
    let ghost cdv = children.deep_view();
    // positions of the adjacent layer's nodes
    let mut posv: Vec<u64> = Vec::new();
    let mut inadj: Vec<bool> = Vec::new();
    let mut z: usize = 0;
    while z < n
        invariant
            z <= n,
            posv@.len() == z,
            inadj@.len() == z,
            forall|i: int| 0 <= i < z ==> (#[trigger] posv@[i]) == 0,
            forall|i: int| 0 <= i < z ==> !(#[trigger] inadj@[i]),
        decreases n - z,
    {
        posv.push(0);
        inadj.push(false);
        z += 1;
    }
    let mut ai: usize = 0;
    while ai < adj.len()
        invariant
            ai <= adj@.len(),
            adj@.len() <= n,
            n <= u32::MAX,
            posv@.len() == n,
            inadj@.len() == n,
            adj@.no_duplicates(),
            forall|i: int| 0 <= i < adj@.len() ==> (#[trigger] adj@[i]) < n,
            forall|i: int| 0 <= i < n ==> (#[trigger] posv@[i]) < n,
            forall|p: usize|
                p < n ==> ((#[trigger] inadj@[p as int]) <==> exists|k: int|
                    0 <= k < ai && adj@[k] == p),
            forall|k: int|
                0 <= k < ai ==> posv@[(#[trigger] adj@[k]) as int] as int == k,
        decreases adj@.len() - ai,
    {
        let a = adj[ai];
        let ghost pre_pos = posv@;
        let ghost pre_in = inadj@;
        posv.set(a, ai as u64);
        inadj.set(a, true);
        ai += 1;
        proof {
            assert forall|p: usize|
                p < n implies ((#[trigger] inadj@[p as int]) <==> exists|k: int|
                0 <= k < ai && adj@[k] == p) by {
                if p == a {
                    assert(adj@[ai as int - 1] == p);
                    assert(0 <= ai - 1 < ai && adj@[ai as int - 1] == p);
                } else {
                    assert(inadj@[p as int] == pre_in[p as int]);
                    if exists|k: int| 0 <= k < ai && adj@[k] == p {
                        let k = choose|k: int| 0 <= k < ai && adj@[k] == p;
                        assert(k < ai - 1);
                    }
                }
            }
            assert forall|k: int|
                0 <= k < ai implies posv@[(#[trigger] adj@[k]) as int] as int == k by {
                if k == ai - 1 {
                    assert(posv@[a as int] == ai as u64 - 1);
                } else {
                    assert(adj@[k] != adj@[ai as int - 1]);
                    assert(posv@[adj@[k] as int] == pre_pos[adj@[k] as int]);
                }
            }
        }
    }
    proof {
        assert forall|p: usize| p < n implies ((#[trigger] inadj@[p as int]) <==> adj@.contains(
            p,
        )) by {}
    }
    // one keyed entry per slot
    let mut es: Vec<BaryEntry> = Vec::new();
    let mut i: usize = 0;
    while i < layer.len()
        invariant
            i <= layer@.len(),
            es@.len() == i,
            cdv == children.deep_view(),
            forall|m: int| 0 <= m < i ==> (#[trigger] es@[m]).node == layer@[m],
            toward_parents ==> forall|m: int|
                0 <= m < i ==> (#[trigger] es@[m]) == parent_entry(cdv, adj@, layer@[m]),
            !toward_parents ==> forall|m: int|
                0 <= m < i ==> (#[trigger] es@[m]) == child_entry(cdv, adj@, layer@[m]),
            children@.len() == n,
            forall|p: int, e: int|
                0 <= p < n && 0 <= e < children@[p]@.len() ==> (#[trigger] children@[p]@[e]) < n,
            edges_upto(children.deep_view(), n as int) <= u32::MAX,
            n <= u32::MAX,
            forall|m: int| 0 <= m < layer@.len() ==> (#[trigger] layer@[m]) < n,
            posv@.len() == n,
            inadj@.len() == n,
            forall|m: int| 0 <= m < n ==> (#[trigger] posv@[m]) < n,
            adj@.no_duplicates(),
            forall|p: usize| p < n ==> ((#[trigger] inadj@[p as int]) <==> adj@.contains(p)),
            forall|k: int|
                0 <= k < adj@.len() ==> (#[trigger] adj@[k]) < n && posv@[adj@[k] as int] as int
                    == k,
        decreases layer@.len() - i,
    {
        let v = layer[i];
        let k = if toward_parents {
            key_from_parents(v, n, children, &posv, &inadj, Ghost(adj@))
        } else {
            key_from_children(v, n, children, &posv, &inadj, Ghost(adj@))
        };
        es.push(k);
        i += 1;
    }
    let ghost es0 = es@;
    let sorted = sort_entries(es);
    let r = entry_nodes(&sorted);
    proof {
        lemma_entry_perm(es0, sorted@, layer@, r@);
        broadcast use vstd::seq_lib::group_to_multiset_ensures;

        // every sorted entry is one of the built entries, so it is the
        // spec key of its own node, and entry order carries over to nodes
        assert forall|i2: int| 0 <= i2 < sorted@.len() implies es0.contains(
            #[trigger] sorted@[i2],
        ) by {
            assert(sorted@.to_multiset().contains(sorted@[i2]));
            assert(es0.to_multiset().count(sorted@[i2]) > 0);
        }
        let leq = |x: BaryEntry, y: BaryEntry| bary_le(x, y);
        assert(vstd::relations::sorted_by(sorted@, leq));
        if toward_parents {
            assert forall|i2: int, j2: int|
                0 <= i2 < j2 < r@.len() implies le_by_parents(
                cdv,
                adj@,
                #[trigger] r@[i2],
                #[trigger] r@[j2],
            ) by {
                let mi = choose|m: int| 0 <= m < es0.len() && es0[m] == sorted@[i2];
                let mj = choose|m: int| 0 <= m < es0.len() && es0[m] == sorted@[j2];
                assert(sorted@[i2] == parent_entry(cdv, adj@, layer@[mi]));
                assert(sorted@[j2] == parent_entry(cdv, adj@, layer@[mj]));
                assert(r@[i2] == sorted@[i2].node && r@[j2] == sorted@[j2].node);
                assert(leq(sorted@[i2], sorted@[j2]));
                assert(bary_le(sorted@[i2], sorted@[j2]));
            }
        } else {
            assert forall|i2: int, j2: int|
                0 <= i2 < j2 < r@.len() implies le_by_children(
                cdv,
                adj@,
                #[trigger] r@[i2],
                #[trigger] r@[j2],
            ) by {
                let mi = choose|m: int| 0 <= m < es0.len() && es0[m] == sorted@[i2];
                let mj = choose|m: int| 0 <= m < es0.len() && es0[m] == sorted@[j2];
                assert(sorted@[i2] == child_entry(cdv, adj@, layer@[mi]));
                assert(sorted@[j2] == child_entry(cdv, adj@, layer@[mj]));
                assert(r@[i2] == sorted@[i2].node && r@[j2] == sorted@[j2].node);
                assert(leq(sorted@[i2], sorted@[j2]));
                assert(bary_le(sorted@[i2], sorted@[j2]));
            }
        }
    }
    r
}

/// One whole top-down pass: walks the layers downward, reordering each
/// but the first by its parents in the layer above as this pass has
/// already left it.
fn pass_down(layers_in: Vec<Vec<usize>>, children: &Vec<Vec<usize>>, n: usize) -> (r: Vec<
    Vec<usize>,
>)
    requires
        children@.len() == n,
        forall|p: int, e: int|
            0 <= p < n && 0 <= e < children@[p]@.len() ==> (#[trigger] children@[p]@[e]) < n,
        edges_upto(children.deep_view(), n as int) <= u32::MAX,
        n <= u32::MAX,
        forall|d: int| 0 <= d < layers_in@.len() ==> (#[trigger] layers_in@[d])@.no_duplicates(),
        forall|d: int, i: int|
            0 <= d < layers_in@.len() && 0 <= i < layers_in@[d]@.len() ==> (#[trigger] layers_in@[
                d
            ]@[i]) < n,
    ensures
        r@.len() == layers_in@.len(),
        forall|d: int| 0 <= d < r@.len() ==> (#[trigger] r@[d])@.no_duplicates(),
        forall|d: int, i: int|
            0 <= d < r@.len() && 0 <= i < r@[d]@.len() ==> (#[trigger] r@[d]@[i]) < n,
        forall|d: int| 0 <= d < r@.len() ==> same_nodes(layers_in@[d]@, (#[trigger] r@[d])@),
        down_pass(children.deep_view(), layers_in.deep_view(), r.deep_view()),
{
    let ghost cdv = children.deep_view();
    let mut cur = layers_in;
    let ghost inp = cur.deep_view();
    proof {
        assert(cdv.len() == n);
        assert forall|p: int| 0 <= p < n implies cdv[p] == (#[trigger] children@[p])@ by {
            assert(children.deep_view()[p] =~= children@[p].deep_view());
            assert(children@[p].deep_view() =~= children@[p]@);
        }
        assert forall|d: int| 0 <= d < cur@.len() implies inp[d] == (#[trigger] cur@[d])@ by {
            assert(cur.deep_view()[d] =~= cur@[d].deep_view());
            assert(cur@[d].deep_view() =~= cur@[d]@);
        }
    }
    let mut li: usize = 1;
    while li < cur.len()
        invariant
            1 <= li <= cur@.len() + 1,
            cur@.len() == inp.len(),
            n == cdv.len(),
            cdv == children.deep_view(),
            children@.len() == n,
            forall|p: int| 0 <= p < n ==> cdv[p] == (#[trigger] children@[p])@,
            forall|p: int, e: int|
                0 <= p < n && 0 <= e < children@[p]@.len() ==> (#[trigger] children@[p]@[e]) < n,
            edges_upto(cdv, n as int) <= u32::MAX,
            n <= u32::MAX,
            forall|d: int| 0 <= d < cur@.len() ==> (#[trigger] cur@[d])@.no_duplicates(),
            forall|d: int, i: int|
                0 <= d < cur@.len() && 0 <= i < cur@[d]@.len() ==> (#[trigger] cur@[d]@[i]) < n,
            forall|d: int| li <= d < cur@.len() ==> (#[trigger] cur@[d])@ == inp[d],
            cur@.len() > 0 ==> cur@[0]@ == inp[0],
            forall|d: int| 1 <= d < li && d < cur@.len() ==> same_nodes(inp[d], (#[trigger] cur@[d])@),
            forall|d: int, i: int, j: int|
                1 <= d < li && d < cur@.len() && 0 <= i < j < cur@[d]@.len() ==> le_by_parents(
                    cdv,
                    cur@[d - 1]@,
                    #[trigger] cur@[d]@[i],
                    #[trigger] cur@[d]@[j],
                ),
        decreases cur@.len() - li,
    {
        let ghost pre = cur@;
        proof {
            lemma_distinct_bounded_len(cur@[li as int - 1]@, n);
        }
        let nl = barycenter_pass(&cur[li], &cur[li - 1], children, n, true);
        let ghost nl_v = nl@;
        cur.set(li, nl);
        proof {
            assert forall|i2: int| 0 <= i2 < nl_v.len() implies (#[trigger] nl_v[i2]) < n by {
                assert(nl_v.contains(nl_v[i2]));
                assert(pre[li as int]@.contains(nl_v[i2]));
                let m = choose|m: int|
                    0 <= m < pre[li as int]@.len() && #[trigger] pre[li as int]@[m] == nl_v[i2];
            }
            assert forall|d: int, i: int|
                0 <= d < cur@.len() && 0 <= i < cur@[d]@.len() implies (#[trigger] cur@[d]@[i])
                < n by {
                if d != li {
                    assert(cur@[d] == pre[d]);
                }
            }
            assert(same_nodes(inp[li as int], nl_v)) by {
                assert(pre[li as int]@ == inp[li as int]);
            }
            assert forall|d: int|
                1 <= d < li + 1 && d < cur@.len() implies same_nodes(
                inp[d],
                (#[trigger] cur@[d])@,
            ) by {
                if d != li {
                    assert(cur@[d] == pre[d]);
                } else {
                    assert(cur@[d]@ == nl_v);
                }
            }
            assert forall|d: int, i: int, j: int|
                1 <= d < li + 1 && d < cur@.len() && 0 <= i < j
                    < cur@[d]@.len() implies le_by_parents(
                cdv,
                cur@[d - 1]@,
                #[trigger] cur@[d]@[i],
                #[trigger] cur@[d]@[j],
            ) by {
                assert(cur@[d - 1] == pre[d - 1]);
                if d != li {
                    assert(cur@[d] == pre[d]);
                    assert(le_by_parents(cdv, pre[d - 1]@, pre[d]@[i], pre[d]@[j]));
                } else {
                    assert(cur@[d]@ == nl_v);
                }
            }
        }
        li += 1;
    }
    proof {
        let dv = cur.deep_view();
        assert forall|d: int| 0 <= d < cur@.len() implies dv[d] == (#[trigger] cur@[d])@ by {
            assert(cur.deep_view()[d] =~= cur@[d].deep_view());
            assert(cur@[d].deep_view() =~= cur@[d]@);
        }
        assert(down_pass(cdv, inp, dv)) by {
            assert(dv.len() == inp.len());
            if inp.len() > 0 {
                assert(dv[0] == cur@[0]@);
            }
            assert forall|d: int| 1 <= d < inp.len() implies same_nodes(
                inp[d],
                #[trigger] dv[d],
            ) by {
                assert(dv[d] == cur@[d]@);
            }
            assert forall|d: int, i: int, j: int|
                1 <= d < inp.len() && 0 <= i < j < dv[d].len() implies le_by_parents(
                cdv,
                dv[d - 1],
                #[trigger] dv[d][i],
                #[trigger] dv[d][j],
            ) by {
                assert(dv[d] == cur@[d]@);
                assert(dv[d - 1] == cur@[d - 1]@);
                assert(le_by_parents(cdv, cur@[d - 1]@, cur@[d]@[i], cur@[d]@[j]));
            }
        }
        assert forall|d: int| 0 <= d < cur@.len() implies same_nodes(
            inp[d],
            (#[trigger] cur@[d])@,
        ) by {
            if d == 0 || d >= 1 {
                if d == 0 && cur@.len() > 0 {
                    assert(cur@[0]@ == inp[0]);
                }
            }
        }
    }
    cur
}

/// One whole bottom-up pass: walks the layers upward, reordering each
/// but the last by its children in the layer below as this pass has
/// already left it.
fn pass_up(layers_in: Vec<Vec<usize>>, children: &Vec<Vec<usize>>, n: usize) -> (r: Vec<
    Vec<usize>,
>)
    requires
        children@.len() == n,
        forall|p: int, e: int|
            0 <= p < n && 0 <= e < children@[p]@.len() ==> (#[trigger] children@[p]@[e]) < n,
        edges_upto(children.deep_view(), n as int) <= u32::MAX,
        n <= u32::MAX,
        forall|d: int| 0 <= d < layers_in@.len() ==> (#[trigger] layers_in@[d])@.no_duplicates(),
        forall|d: int, i: int|
            0 <= d < layers_in@.len() && 0 <= i < layers_in@[d]@.len() ==> (#[trigger] layers_in@[
                d
            ]@[i]) < n,
    ensures
        r@.len() == layers_in@.len(),
        forall|d: int| 0 <= d < r@.len() ==> (#[trigger] r@[d])@.no_duplicates(),
        forall|d: int, i: int|
            0 <= d < r@.len() && 0 <= i < r@[d]@.len() ==> (#[trigger] r@[d]@[i]) < n,
        forall|d: int| 0 <= d < r@.len() ==> same_nodes(layers_in@[d]@, (#[trigger] r@[d])@),
        up_pass(children.deep_view(), layers_in.deep_view(), r.deep_view()),
{
    let ghost cdv = children.deep_view();
    let mut cur = layers_in;
    let ghost inp = cur.deep_view();
    proof {
        assert(cdv.len() == n);
        assert forall|p: int| 0 <= p < n implies cdv[p] == (#[trigger] children@[p])@ by {
            assert(children.deep_view()[p] =~= children@[p].deep_view());
            assert(children@[p].deep_view() =~= children@[p]@);
        }
        assert forall|d: int| 0 <= d < cur@.len() implies inp[d] == (#[trigger] cur@[d])@ by {
            assert(cur.deep_view()[d] =~= cur@[d].deep_view());
            assert(cur@[d].deep_view() =~= cur@[d]@);
        }
    }
    let mut li: usize = cur.len();
    while li > 1
        invariant
            li <= cur@.len() || cur@.len() == 0,
            cur@.len() == 0 ==> li == 0,
            cur@.len() > 0 ==> 1 <= li,
            cur@.len() == inp.len(),
            n == cdv.len(),
            cdv == children.deep_view(),
            children@.len() == n,
            forall|p: int| 0 <= p < n ==> cdv[p] == (#[trigger] children@[p])@,
            forall|p: int, e: int|
                0 <= p < n && 0 <= e < children@[p]@.len() ==> (#[trigger] children@[p]@[e]) < n,
            edges_upto(cdv, n as int) <= u32::MAX,
            n <= u32::MAX,
            forall|d: int| 0 <= d < cur@.len() ==> (#[trigger] cur@[d])@.no_duplicates(),
            forall|d: int, i: int|
                0 <= d < cur@.len() && 0 <= i < cur@[d]@.len() ==> (#[trigger] cur@[d]@[i]) < n,
            forall|d: int| 0 <= d < li - 1 ==> (#[trigger] cur@[d])@ == inp[d],
            cur@.len() > 0 ==> cur@[cur@.len() - 1]@ == inp[inp.len() - 1],
            forall|d: int|
                li - 1 <= d < cur@.len() - 1 ==> same_nodes(inp[d], (#[trigger] cur@[d])@),
            forall|d: int, i: int, j: int|
                li - 1 <= d < cur@.len() - 1 && 0 <= i < j < cur@[d]@.len() ==> le_by_children(
                    cdv,
                    cur@[d + 1]@,
                    #[trigger] cur@[d]@[i],
                    #[trigger] cur@[d]@[j],
                ),
        decreases li,
    {
        li -= 1;
        let ghost pre = cur@;
        proof {
            lemma_distinct_bounded_len(cur@[li as int]@, n);
        }
        let nl = barycenter_pass(&cur[li - 1], &cur[li], children, n, false);
        let ghost nl_v = nl@;
        cur.set(li - 1, nl);
        proof {
            assert forall|i2: int| 0 <= i2 < nl_v.len() implies (#[trigger] nl_v[i2]) < n by {
                assert(nl_v.contains(nl_v[i2]));
                assert(pre[li as int - 1]@.contains(nl_v[i2]));
                let m = choose|m: int|
                    0 <= m < pre[li as int - 1]@.len() && #[trigger] pre[li as int - 1]@[m]
                        == nl_v[i2];
            }
            assert forall|d: int, i: int|
                0 <= d < cur@.len() && 0 <= i < cur@[d]@.len() implies (#[trigger] cur@[d]@[i])
                < n by {
                if d != li - 1 {
                    assert(cur@[d] == pre[d]);
                }
            }
            assert(same_nodes(inp[li as int - 1], nl_v)) by {
                assert(pre[li as int - 1]@ == inp[li as int - 1]);
            }
            assert forall|d: int|
                li - 1 <= d < cur@.len() - 1 implies same_nodes(
                inp[d],
                (#[trigger] cur@[d])@,
            ) by {
                if d != li - 1 {
                    assert(cur@[d] == pre[d]);
                } else {
                    assert(cur@[d]@ == nl_v);
                }
            }
            assert forall|d: int, i: int, j: int|
                li - 1 <= d < cur@.len() - 1 && 0 <= i < j
                    < cur@[d]@.len() implies le_by_children(
                cdv,
                cur@[d + 1]@,
                #[trigger] cur@[d]@[i],
                #[trigger] cur@[d]@[j],
            ) by {
                assert(cur@[d + 1] == pre[d + 1]);
                if d != li - 1 {
                    assert(cur@[d] == pre[d]);
                    assert(le_by_children(cdv, pre[d + 1]@, pre[d]@[i], pre[d]@[j]));
                } else {
                    assert(cur@[d]@ == nl_v);
                }
            }
        }
    }
    proof {
        let dv = cur.deep_view();
        assert forall|d: int| 0 <= d < cur@.len() implies dv[d] == (#[trigger] cur@[d])@ by {
            assert(cur.deep_view()[d] =~= cur@[d].deep_view());
            assert(cur@[d].deep_view() =~= cur@[d]@);
        }
        assert(up_pass(cdv, inp, dv)) by {
            assert(dv.len() == inp.len());
            if inp.len() > 0 {
                assert(dv[inp.len() - 1] == cur@[inp.len() - 1]@);
            }
            assert forall|d: int| 0 <= d < inp.len() - 1 implies same_nodes(
                inp[d],
                #[trigger] dv[d],
            ) by {
                assert(dv[d] == cur@[d]@);
                if inp.len() > 1 {
                    assert(li == 1 || inp.len() <= 1);
                }
            }
            assert forall|d: int, i: int, j: int|
                0 <= d < inp.len() - 1 && 0 <= i < j < dv[d].len() implies le_by_children(
                cdv,
                dv[d + 1],
                #[trigger] dv[d][i],
                #[trigger] dv[d][j],
            ) by {
                assert(dv[d] == cur@[d]@);
                assert(dv[d + 1] == cur@[d + 1]@);
                assert(le_by_children(cdv, cur@[d + 1]@, cur@[d]@[i], cur@[d]@[j]));
            }
        }
        assert forall|d: int| 0 <= d < cur@.len() implies same_nodes(
            inp[d],
            (#[trigger] cur@[d])@,
        ) by {
            if d == cur@.len() - 1 {
                assert(cur@[d]@ == inp[d]);
            }
        }
    }
    cur
}

/// Crossing reduction: the fixed three barycenter passes over the layers —
/// top-down ordering each layer by its parents in the layer above, then
/// bottom-up by children in the layer below, then top-down again. The
/// result is pinned exactly: it is the output of those three passes in
/// that order, each pass keying a layer against the adjacent layer as the
/// pass itself has already reordered it. In particular every layer keeps
/// exactly its nodes, each once.
pub fn crossing_reduced_layers(
    layers: &Vec<Vec<usize>>,
    children: &Vec<Vec<usize>>,
    n: usize,
) -> (r: Vec<Vec<usize>>)
    requires
        children@.len() == n,
        forall|p: int, e: int|
            0 <= p < n && 0 <= e < children@[p]@.len() ==> (#[trigger] children@[p]@[e]) < n,
        edges_upto(children.deep_view(), n as int) <= u32::MAX,
        n <= u32::MAX,
        forall|d: int| 0 <= d < layers@.len() ==> (#[trigger] layers@[d])@.no_duplicates(),
        forall|d: int, i: int|
            0 <= d < layers@.len() && 0 <= i < layers@[d]@.len() ==> (#[trigger] layers@[d]@[i])
                < n,
    ensures
        r@.len() == layers@.len(),
        forall|d: int| 0 <= d < r@.len() ==> (#[trigger] r@[d])@.no_duplicates(),
        forall|d: int| 0 <= d < r@.len() ==> (#[trigger] r@[d])@.len() == layers@[d]@.len(),
        forall|d: int, x: usize|
            0 <= d < r@.len() ==> ((#[trigger] r@[d]@.contains(x)) <==> layers@[d]@.contains(x)),
        forall|d: int, i: int|
            0 <= d < r@.len() && 0 <= i < r@[d]@.len() ==> (#[trigger] r@[d]@[i]) < n,
        exists|m1: Seq<Seq<usize>>, m2: Seq<Seq<usize>>|
            #[trigger] up_pass(children.deep_view(), m1, m2) && down_pass(
                children.deep_view(),
                layers.deep_view(),
                m1,
            ) && down_pass(children.deep_view(), m2, r.deep_view()),
{
    let ghost cdv = children.deep_view();
    let ghost lv = layers.deep_view();
    let mut cur: Vec<Vec<usize>> = Vec::new();
    let mut d: usize = 0;
    while d < layers.len()
        invariant
            d <= layers@.len(),
            cur@.len() == d,
            forall|d2: int| 0 <= d2 < d ==> (#[trigger] cur@[d2])@ == layers@[d2]@,
        decreases layers@.len() - d,
    {
        let copy = copy_indices(&layers[d]);
        cur.push(copy);
        d += 1;
    }
    proof {
        assert(cur.deep_view() =~= lv) by {
            assert forall|d2: int| 0 <= d2 < cur@.len() implies cur.deep_view()[d2] == lv[d2] by {
                assert(cur.deep_view()[d2] =~= cur@[d2].deep_view());
                assert(cur@[d2].deep_view() =~= cur@[d2]@);
                assert(layers.deep_view()[d2] =~= layers@[d2].deep_view());
                assert(layers@[d2].deep_view() =~= layers@[d2]@);
            }
        }
        assert forall|d2: int|
            0 <= d2 < cur@.len() implies (#[trigger] cur@[d2])@.no_duplicates() by {
            assert(cur@[d2]@ == layers@[d2]@);
        }
        assert forall|d2: int, i: int|
            0 <= d2 < cur@.len() && 0 <= i < cur@[d2]@.len() implies (#[trigger] cur@[d2]@[i])
            < n by {
            assert(cur@[d2]@ == layers@[d2]@);
        }
    }
    let ghost cur0 = cur@;
    let a = pass_down(cur, children, n);
    let ghost m1 = a.deep_view();
    let ghost av = a@;
    let b = pass_up(a, children, n);
    let ghost m2 = b.deep_view();
    let ghost bv = b@;
    let c = pass_down(b, children, n);
    proof {
        assert(down_pass(cdv, lv, m1));
        assert(up_pass(cdv, m1, m2));
        assert(down_pass(cdv, m2, c.deep_view()));
        assert forall|d2: int, x: usize|
            0 <= d2 < c@.len() implies ((#[trigger] c@[d2]@.contains(x)) <==> layers@[
                d2
            ]@.contains(x)) by {
            assert(same_nodes(cur0[d2]@, av[d2]@));
            assert(same_nodes(av[d2]@, bv[d2]@));
            assert(same_nodes(bv[d2]@, c@[d2]@));
            assert(cur0[d2]@ == layers@[d2]@);
        }
        assert forall|d2: int|
            0 <= d2 < c@.len() implies (#[trigger] c@[d2])@.len() == layers@[d2]@.len() by {
            assert(same_nodes(cur0[d2]@, av[d2]@));
            assert(same_nodes(av[d2]@, bv[d2]@));
            assert(same_nodes(bv[d2]@, c@[d2]@));
            assert(cur0[d2]@ == layers@[d2]@);
        }
    }
    c
}

/// Copies an index vector.
fn copy_indices(v: &Vec<usize>) -> (r: Vec<usize>)
    ensures
        r@ == v@,
{
    let mut r: Vec<usize> = Vec::new();
    let mut i: usize = 0;
    while i < v.len()
        invariant
            i <= v@.len(),
            r@ == v@.subrange(0, i as int),
        decreases v@.len() - i,
    {
        let c = v[i];
        r.push(c);
        i += 1;
        proof {
            assert(r@ =~= v@.subrange(0, i as int));
        }
    }
    proof {
        assert(r@ =~= v@);
    }
    r
}

} // verus!
