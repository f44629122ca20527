//! The report view model: hierarchy resolution and log aggregation.
//!
//! The multi-parent DAG declared by child edges is collapsed into one
//! canonical spanning tree (primary parent = lexicographically smallest
//! parent name); the remaining DAG edges are kept as display metadata.
//! Log rows are bound to the nodes that own their addresses, with exclusive
//! ownership enforced.

use vstd::prelude::*;

verus! {

use vstd::relations::sorted_by;
use crate::addr::{Addr, addr_set_ordered};
use crate::log::{LogIndex, LogRow};
use crate::order::{name_le, name_leq, name_eq, copy_name, sort_names, dedup_names_sorted};

/// A node keyed by display name, ready for hierarchy resolution and
/// aggregation.
pub struct NamedNode {
    pub name: Vec<u8>,
    pub label: String,
    pub children: Vec<Vec<u8>>,
    pub operators: Vec<Addr>,
}

/// One measured operator owned by a node.
#[derive(PartialEq)]
pub struct OperatorView {
    pub addr: Vec<u32>,
    pub op_name: String,
    pub activations: u64,
    pub total_active_us: u64,
}

/// The externally visible unit of the resolved hierarchy.
#[derive(PartialEq)]
pub struct NameNodeView {
    pub name: Vec<u8>,
    pub label: String,
    /// Primary tree children (spanning tree derived from the DAG).
    pub children: Vec<Vec<u8>>,
    /// All DAG parents, normalized (sorted, deduplicated).
    pub dag_parents: Vec<Vec<u8>>,
    /// DAG parents beyond the chosen primary parent.
    pub extra_parents: Vec<Vec<u8>>,
    pub self_activations: u64,
    pub self_total_active_us: u64,
    /// Operators owned by this node that matched a log row, by address.
    pub operators: Vec<OperatorView>,
}

/// Report-wide totals.
#[derive(PartialEq)]
pub struct TotalsView {
    pub names: usize,
    pub operators_in_log: usize,
    pub operators_mapped: usize,
    pub total_mapped_us: u64,
    pub total_mapped_activations: u64,
}

/// A non-fatal diagnostic: a declared address had no log row.
#[derive(PartialEq)]
pub struct UnmappedWarning {
    pub name: Vec<u8>,
    pub addr: Vec<u32>,
}

/// One rule sub-DAG entry, keyed by fingerprint.
pub struct RuleNodeSpec {
    pub fingerprint: Vec<u8>,
    pub children: Vec<Vec<u8>>,
}

/// One declared rule: display text, root fingerprint and its local sub-DAG.
pub struct RuleSpec {
    pub text: String,
    pub root: Vec<u8>,
    pub nodes: Vec<RuleNodeSpec>,
}

/// One resolved rule sub-DAG entry.
#[derive(PartialEq)]
pub struct RulePlanNodeView {
    pub fingerprint: Vec<u8>,
    pub node: Option<Vec<u8>>,
    pub label: Option<String>,
    pub children: Vec<Vec<u8>>,
    pub parents: Vec<Vec<u8>>,
    pub shared: bool,
}

/// One resolved rule view.
#[derive(PartialEq)]
pub struct RuleView {
    pub text: String,
    pub root: Vec<u8>,
    pub nodes: Vec<RulePlanNodeView>,
}

/// The assembled, immutable report.
#[derive(PartialEq)]
pub struct ReportData {
    pub roots: Vec<Vec<u8>>,
    pub nodes: Vec<NameNodeView>,
    pub rules: Vec<RuleView>,
    pub totals: TotalsView,
}

/// Why report building failed.
#[derive(Debug, PartialEq)]
pub enum ReportError {
    /// One address is claimed as an operator of two distinct nodes.
    AddressConflict { addr: Vec<u32>, first: Vec<u8>, second: Vec<u8> },
}

/// The node names, as mathematical byte strings.
pub open spec fn names_of(nodes: Seq<NamedNode>) -> Seq<Seq<u8>> {
    nodes.map_values(|n: NamedNode| n.name@)
}

/// The input node list is strictly sorted by name.
pub open spec fn nodes_named_sorted(nodes: Seq<NamedNode>) -> bool {
    &&& sorted_by(names_of(nodes), name_leq())
    &&& names_of(nodes).no_duplicates()
}

/// Node `p` declares `c` as a child.
pub open spec fn is_parent_of(nodes: Seq<NamedNode>, p: int, c: Seq<u8>) -> bool {
    exists|ci: int|
        0 <= ci < nodes[p].children@.len() && (#[trigger] nodes[p].children@[ci])@ == c
}

/// The set of names of nodes that declare `c` as a child.
pub open spec fn parent_set(nodes: Seq<NamedNode>, c: Seq<u8>) -> Set<Seq<u8>> {
    Set::new(
        |q: Seq<u8>|
            exists|p: int|
                0 <= p < nodes.len() && (#[trigger] nodes[p]).name@ == q && is_parent_of(
                    nodes,
                    p,
                    c,
                ),
    )
}

/// `q` is the primary parent of `c`: a parent, and lexicographically least
/// among all parents.
pub open spec fn is_primary_parent(nodes: Seq<NamedNode>, c: Seq<u8>, q: Seq<u8>) -> bool {
    &&& parent_set(nodes, c).contains(q)
    &&& forall|q2: Seq<u8>| #[trigger] parent_set(nodes, c).contains(q2) ==> name_le(q, q2)
}

/// `c` has at least one declared parent.
pub open spec fn has_parent(nodes: Seq<NamedNode>, c: Seq<u8>) -> bool {
    exists|p: int| 0 <= p < nodes.len() && #[trigger] is_parent_of(nodes, p, c)
}

/// Sorts a raw parent list and removes duplicates: the normalized parent
/// list whose head is the primary parent.
pub fn normalize_parents(parents: Vec<Vec<u8>>) -> (r: Vec<Vec<u8>>)
    ensures
        sorted_by(r.deep_view(), name_leq()),
        r.deep_view().no_duplicates(),
        r.deep_view().to_set() == parents.deep_view().to_set(),
{
    let ghost dv0 = parents.deep_view();
    let sorted = sort_names(parents);
    proof {
        crate::order::lemma_name_le_total_ordering();
        dv0.lemma_sort_by_ensures(name_leq());
        broadcast use vstd::seq_lib::group_to_multiset_ensures;

        assert forall|e: Seq<u8>| sorted.deep_view().to_set().contains(e) <==> dv0
            .to_set().contains(e) by {
            if sorted.deep_view().contains(e) {
                assert(sorted.deep_view().to_multiset().count(e) > 0);
                assert(dv0.to_multiset().count(e) > 0);
            }
            if dv0.contains(e) {
                assert(dv0.to_multiset().count(e) > 0);
                assert(sorted.deep_view().to_multiset().count(e) > 0);
            }
        }
        assert(sorted.deep_view().to_set() =~= dv0.to_set());
    }
    dedup_names_sorted(&sorted)
}

/// Collects the names of every node declaring `c` as a child, in node
/// order, one entry per declaring node (as derived from inverting every
/// child edge and normalizing).
fn gather_parents(nodes: &Vec<NamedNode>, c: &Vec<u8>) -> (r: Vec<Vec<u8>>)
    ensures
        r.deep_view().to_set() == parent_set(nodes@, c@),
{
    let mut r: Vec<Vec<u8>> = Vec::new();
    let mut p: usize = 0;
    proof {
        assert(r.deep_view() =~= Seq::<Seq<u8>>::empty());
        assert(r.deep_view().to_set() =~= Set::<Seq<u8>>::empty());
    }
    while p < nodes.len()
        invariant
            p <= nodes.len(),
            forall|e: Seq<u8>|
                r.deep_view().to_set().contains(e) <==> exists|p2: int|
                    0 <= p2 < p && (#[trigger] nodes@[p2]).name@ == e && is_parent_of(
                        nodes@,
                        p2,
                        c@,
                    ),
        decreases nodes.len() - p,
    {
        let ghost pre = r.deep_view();
        let mut found: bool = false;
        let ch = &nodes[p].children;
        let mut ci: usize = 0;
        while ci < ch.len()
            invariant
                ci <= ch.len(),
                p < nodes.len(),
                ch@ == nodes@[p as int].children@,
                found <==> exists|ci2: int|
                    0 <= ci2 < ci && (#[trigger] nodes@[p as int].children@[ci2])@ == c@,
            decreases ch.len() - ci,
        {
            if name_eq(&ch[ci], c) {
                found = true;
            }
            ci += 1;
        }
        proof {
            assert(found <==> is_parent_of(nodes@, p as int, c@));
        }
        if found {
            let nm = copy_name(&nodes[p].name);
            r.push(nm);
            proof {
                assert(nm.deep_view() =~= nm@);
                assert(r.deep_view() =~= pre.push(nodes@[p as int].name@));
                assert forall|e: Seq<u8>| r.deep_view().to_set().contains(e) implies (exists|
                    p2: int,
                |
                    0 <= p2 < p + 1 && (#[trigger] nodes@[p2]).name@ == e && is_parent_of(
                        nodes@,
                        p2,
                        c@,
                    )) by {
                    let m = choose|m: int|
                        0 <= m < r.deep_view().len() && r.deep_view()[m] == e;
                    if m < pre.len() {
                        assert(pre.to_set().contains(e));
                    } else {
                        assert(e == nodes@[p as int].name@);
                        assert(nodes@[p as int].name@ == e && is_parent_of(nodes@, p as int, c@));
                    }
                }
                assert forall|e: Seq<u8>| (exists|p2: int|
                    0 <= p2 < p + 1 && (#[trigger] nodes@[p2]).name@ == e && is_parent_of(
                        nodes@,
                        p2,
                        c@,
                    )) implies r.deep_view().to_set().contains(e) by {
                    let p2 = choose|p2: int|
                        0 <= p2 < p + 1 && (#[trigger] nodes@[p2]).name@ == e && is_parent_of(
                            nodes@,
                            p2,
                            c@,
                        );
                    if p2 < p {
                        assert(pre.to_set().contains(e));
                        let m = choose|m: int| 0 <= m < pre.len() && pre[m] == e;
                        assert(r.deep_view()[m] == e);
                    } else {
                        assert(r.deep_view()[r.deep_view().len() - 1] == e);
                    }
                }
            }
        } else {
            proof {
                assert forall|e: Seq<u8>| r.deep_view().to_set().contains(e) <==> (exists|
                    p2: int,
                |
                    0 <= p2 < p + 1 && (#[trigger] nodes@[p2]).name@ == e && is_parent_of(
                        nodes@,
                        p2,
                        c@,
                    )) by {
                    if r.deep_view().to_set().contains(e) {
                        let p2 = choose|p2: int|
                            0 <= p2 < p && (#[trigger] nodes@[p2]).name@ == e && is_parent_of(
                                nodes@,
                                p2,
                                c@,
                            );
                        assert(0 <= p2 < p + 1 && nodes@[p2].name@ == e && is_parent_of(
                            nodes@,
                            p2,
                            c@,
                        ));
                    }
                    if exists|p2: int|
                        0 <= p2 < p + 1 && (#[trigger] nodes@[p2]).name@ == e && is_parent_of(
                            nodes@,
                            p2,
                            c@,
                        ) {
                        let p2 = choose|p2: int|
                            0 <= p2 < p + 1 && (#[trigger] nodes@[p2]).name@ == e
                                && is_parent_of(nodes@, p2, c@);
                        if p2 == p {
                            assert(is_parent_of(nodes@, p as int, c@));
                            assert(false);
                        }
                    }
                }
            }
        }
        p += 1;
    }
    proof {
        assert forall|e: Seq<u8>| r.deep_view().to_set().contains(e) <==> parent_set(
            nodes@,
            c@,
        ).contains(e) by {}
        assert(r.deep_view().to_set() =~= parent_set(nodes@, c@));
    }
    r
}

/// The normalized parent list of `c`: sorted, deduplicated, containing
/// exactly the parent set.
pub fn normalized_parents_of(nodes: &Vec<NamedNode>, c: &Vec<u8>) -> (r: Vec<Vec<u8>>)
    ensures
        sorted_by(r.deep_view(), name_leq()),
        r.deep_view().no_duplicates(),
        r.deep_view().to_set() == parent_set(nodes@, c@),
        r.deep_view().len() > 0 <==> has_parent(nodes@, c@),
        r.deep_view().len() > 0 ==> is_primary_parent(nodes@, c@, r.deep_view()[0]),
{
    let g = gather_parents(nodes, c);
    let r = normalize_parents(g);
    proof {
        let dv = r.deep_view();
        let ps = parent_set(nodes@, c@);
        // nonempty iff some parent exists
        if dv.len() > 0 {
            assert(dv.to_set().contains(dv[0]));
            let p = choose|p: int|
                0 <= p < nodes@.len() && (#[trigger] nodes@[p]).name@ == dv[0] && is_parent_of(
                    nodes@,
                    p,
                    c@,
                );
            assert(has_parent(nodes@, c@));
        }
        if has_parent(nodes@, c@) {
            let p = choose|p: int| 0 <= p < nodes@.len() && #[trigger] is_parent_of(nodes@, p, c@);
            assert(ps.contains(nodes@[p].name@));
            assert(dv.to_set().contains(nodes@[p].name@));
            let m = choose|m: int| 0 <= m < dv.len() && dv[m] == nodes@[p].name@;
            assert(dv.len() > 0);
        }
        // the head is least
        if dv.len() > 0 {
            assert(dv.to_set().contains(dv[0]));
            assert forall|q2: Seq<u8>| #[trigger] ps.contains(q2) implies name_le(dv[0], q2) by {
                assert(dv.to_set().contains(q2));
                let m = choose|m: int| 0 <= m < dv.len() && dv[m] == q2;
                if m == 0 {
                    crate::order::lemma_name_le_refl(dv[0]);
                } else {
                    let leq = name_leq();
                    assert(leq(dv[0], dv[m]));
                }
            }
        }
    }
    r
}

// ---------------------------------------------------------------------------
// Aggregation model: sums of measured values over claimed addresses.
// ---------------------------------------------------------------------------

/// The activation count of a row, as a mathematical integer.
pub open spec fn f_act() -> spec_fn(LogRow) -> int {
    |r: LogRow| r.activations as int
}

/// The active time of a row, in microseconds.
pub open spec fn f_us() -> spec_fn(LogRow) -> int {
    |r: LogRow| r.total_active_us as int
}

/// The constant one, for counting matched rows.
pub open spec fn f_one() -> spec_fn(LogRow) -> int {
    |r: LogRow| 1int
}

/// Sum of `f` over all rows.
pub open spec fn rows_sum(rows: Seq<LogRow>, f: spec_fn(LogRow) -> int) -> int
    decreases rows.len(),
{
    if rows.len() == 0 {
        0
    } else {
        rows_sum(rows.drop_last(), f) + f(rows.last())
    }
}

/// Sum of `f` over the rows whose address lies in `s`.
pub open spec fn rows_sum_if(rows: Seq<LogRow>, s: Set<Seq<u32>>, f: spec_fn(LogRow) -> int) -> int
    decreases rows.len(),
{
    if rows.len() == 0 {
        0
    } else {
        rows_sum_if(rows.drop_last(), s, f) + if s.contains(rows.last().addr@) {
            f(rows.last())
        } else {
            0
        }
    }
}

/// Sum of `f` over the rows carrying exactly address `a`.
pub open spec fn count_f(rows: Seq<LogRow>, a: Seq<u32>, f: spec_fn(LogRow) -> int) -> int
    decreases rows.len(),
{
    if rows.len() == 0 {
        0
    } else {
        count_f(rows.drop_last(), a, f) + if rows.last().addr@ == a {
            f(rows.last())
        } else {
            0
        }
    }
}

/// The value of `f` on the row carrying address `a`, or zero when absent.
pub open spec fn lookup_f(rows: Seq<LogRow>, a: Seq<u32>, f: spec_fn(LogRow) -> int) -> int {
    if crate::log::rows_have_addr(rows, a) {
        f(rows[crate::log::rows_addr_index(rows, a)])
    } else {
        0
    }
}

/// Sum of `f` over the log rows matched by an operator list.
pub open spec fn ops_sum(ops: Seq<Seq<u32>>, rows: Seq<LogRow>, f: spec_fn(LogRow) -> int) -> int
    decreases ops.len(),
{
    if ops.len() == 0 {
        0
    } else {
        ops_sum(ops.drop_last(), rows, f) + lookup_f(rows, ops.last(), f)
    }
}

/// The addresses of an operator list that match a log row, in order.
pub open spec fn mapped_addrs(ops: Seq<Seq<u32>>, rows: Seq<LogRow>) -> Seq<Seq<u32>>
    decreases ops.len(),
{
    if ops.len() == 0 {
        Seq::empty()
    } else {
        mapped_addrs(ops.drop_last(), rows) + if crate::log::rows_have_addr(rows, ops.last()) {
            seq![ops.last()]
        } else {
            Seq::empty()
        }
    }
}

/// The addresses of an operator list with no log row, in order.
pub open spec fn unmapped_addrs(ops: Seq<Seq<u32>>, rows: Seq<LogRow>) -> Seq<Seq<u32>>
    decreases ops.len(),
{
    if ops.len() == 0 {
        Seq::empty()
    } else {
        unmapped_addrs(ops.drop_last(), rows) + if crate::log::rows_have_addr(rows, ops.last()) {
            Seq::empty()
        } else {
            seq![ops.last()]
        }
    }
}

/// The diagnostics for one node's unmatched addresses.
pub open spec fn node_warn_pairs(n: NamedNode, rows: Seq<LogRow>) -> Seq<(Seq<u8>, Seq<u32>)> {
    unmapped_addrs(n.operators.deep_view(), rows).map_values(|a: Seq<u32>| (n.name@, a))
}

/// All diagnostics, in node order.
pub open spec fn all_warn_pairs(nodes: Seq<NamedNode>, rows: Seq<LogRow>) -> Seq<
    (Seq<u8>, Seq<u32>),
>
    decreases nodes.len(),
{
    if nodes.len() == 0 {
        Seq::empty()
    } else {
        all_warn_pairs(nodes.drop_last(), rows) + node_warn_pairs(nodes.last(), rows)
    }
}

/// Sum of `f` over the rows matched by any node's operators, counted per
/// matching (node, operator) pair.
pub open spec fn nodes_ops_sum(
    nodes: Seq<NamedNode>,
    rows: Seq<LogRow>,
    f: spec_fn(LogRow) -> int,
) -> int
    decreases nodes.len(),
{
    if nodes.len() == 0 {
        0
    } else {
        nodes_ops_sum(nodes.drop_last(), rows, f) + ops_sum(
            nodes.last().operators.deep_view(),
            rows,
            f,
        )
    }
}

/// A partial sum over claimed addresses never exceeds the full sum.
pub proof fn lemma_sum_if_le(rows: Seq<LogRow>, s: Set<Seq<u32>>, f: spec_fn(LogRow) -> int)
    requires
        forall|r: LogRow| #[trigger] f(r) >= 0,
    ensures
        0 <= rows_sum_if(rows, s, f) <= rows_sum(rows, f),
    decreases rows.len(),
{
    if rows.len() > 0 {
        lemma_sum_if_le(rows.drop_last(), s, f);
        assert(f(rows.last()) >= 0);
    }
}

/// Claiming one more address adds exactly the rows carrying it.
pub proof fn lemma_sum_if_insert(
    rows: Seq<LogRow>,
    s: Set<Seq<u32>>,
    a: Seq<u32>,
    f: spec_fn(LogRow) -> int,
)
    requires
        !s.contains(a),
    ensures
        rows_sum_if(rows, s.insert(a), f) == rows_sum_if(rows, s, f) + count_f(rows, a, f),
    decreases rows.len(),
{
    if rows.len() > 0 {
        lemma_sum_if_insert(rows.drop_last(), s, a, f);
    }
}

/// No row carries the address: the per-address sum is zero.
pub proof fn lemma_count_zero(rows: Seq<LogRow>, a: Seq<u32>, f: spec_fn(LogRow) -> int)
    requires
        !crate::log::rows_have_addr(rows, a),
    ensures
        count_f(rows, a, f) == 0,
    decreases rows.len(),
{
    if rows.len() > 0 {
        assert(rows.last().addr@ != a);
        assert(!crate::log::rows_have_addr(rows.drop_last(), a)) by {
            if crate::log::rows_have_addr(rows.drop_last(), a) {
                let i = choose|i: int|
                    0 <= i < rows.drop_last().len() && (#[trigger] rows.drop_last()[i]).addr@ == a;
                assert(rows[i].addr@ == a);
            }
        }
        lemma_count_zero(rows.drop_last(), a, f);
    }
}

/// With unique addresses, the per-address sum is the indexed lookup.
pub proof fn lemma_count_lookup(rows: Seq<LogRow>, a: Seq<u32>, f: spec_fn(LogRow) -> int)
    requires
        crate::log::rows_addr_unique(rows),
    ensures
        count_f(rows, a, f) == lookup_f(rows, a, f),
    decreases rows.len(),
{
    if rows.len() == 0 {
        assert(!crate::log::rows_have_addr(rows, a));
    } else {
        let rl = rows.drop_last();
        let n = rows.len() - 1;
        assert(crate::log::rows_addr_unique(rl)) by {
            assert forall|i: int, j: int| 0 <= i < j < rl.len() implies (#[trigger] rl[i]).addr@
                != (#[trigger] rl[j]).addr@ by {
                assert(rl[i] == rows[i]);
                assert(rl[j] == rows[j]);
            }
        }
        lemma_count_lookup(rl, a, f);
        if rows.last().addr@ == a {
            assert(!crate::log::rows_have_addr(rl, a)) by {
                if crate::log::rows_have_addr(rl, a) {
                    let i = choose|i: int|
                        0 <= i < rl.len() && (#[trigger] rl[i]).addr@ == a;
                    assert(rows[i].addr@ == a);
                    assert(rows[n].addr@ == a);
                }
            }
            lemma_count_zero(rl, a, f);
            assert(crate::log::rows_have_addr(rows, a)) by {
                assert(rows[n].addr@ == a);
            }
            let idx = crate::log::rows_addr_index(rows, a);
            assert(0 <= idx < rows.len() && rows[idx].addr@ == a);
            if idx != n {
                assert(rows[idx].addr@ != rows[n].addr@);
                assert(false);
            }
            assert(count_f(rows, a, f) == f(rows.last()));
            assert(lookup_f(rows, a, f) == f(rows[n]));
        } else {
            if crate::log::rows_have_addr(rl, a) {
                let i = choose|i: int| 0 <= i < rl.len() && (#[trigger] rl[i]).addr@ == a;
                assert(rows[i].addr@ == a);
                assert(crate::log::rows_have_addr(rows, a));
                let idx = crate::log::rows_addr_index(rows, a);
                assert(0 <= idx < rows.len() && rows[idx].addr@ == a);
                let idxl = crate::log::rows_addr_index(rl, a);
                assert(0 <= idxl < rl.len() && rl[idxl].addr@ == a);
                if idx == rows.len() - 1 {
                    assert(rows.last().addr@ == a);
                    assert(false);
                }
                if idx != idxl {
                    assert(rows[idx].addr@ == rows[idxl].addr@);
                    assert(false);
                }
                assert(lookup_f(rows, a, f) == lookup_f(rl, a, f));
            } else {
                assert(!crate::log::rows_have_addr(rows, a)) by {
                    if crate::log::rows_have_addr(rows, a) {
                        let i = choose|i: int|
                            0 <= i < rows.len() && (#[trigger] rows[i]).addr@ == a;
                        if i == rows.len() - 1 {
                            assert(rows.last().addr@ == a);
                        } else {
                            assert(rl[i].addr@ == a);
                        }
                    }
                }
            }
        }
    }
}

// ---------------------------------------------------------------------------
// Exclusive address ownership.
// ---------------------------------------------------------------------------

/// The operator addresses of a node, as mathematical values.
#[verifier::opaque]
pub open spec fn ops_dv(n: NamedNode) -> Seq<Seq<u32>> {
    n.operators.deep_view()
}

/// How the operator address list reads element-wise.
pub proof fn lemma_ops_dv(n: NamedNode)
    ensures
        ops_dv(n).len() == n.operators@.len(),
        forall|o: int| 0 <= o < n.operators@.len() ==> #[trigger] ops_dv(n)[o] == n.operators@[o]@,
{
    reveal(ops_dv);
    assert(ops_dv(n).len() == n.operators@.len());
    assert forall|o: int| 0 <= o < n.operators@.len() implies #[trigger] ops_dv(n)[o]
        == n.operators@[o]@ by {
        assert(n.operators.deep_view()[o] == n.operators@[o].deep_view());
    }
}

/// Claims (k1, o1) and (k2, o2) name the same address.
pub open spec fn claim_eq(nodes: Seq<NamedNode>, k1: int, o1: int, k2: int, o2: int) -> bool {
    &&& 0 <= k1 < nodes.len()
    &&& 0 <= o1 < ops_dv(nodes[k1]).len()
    &&& 0 <= k2 < nodes.len()
    &&& 0 <= o2 < ops_dv(nodes[k2]).len()
    &&& ops_dv(nodes[k1])[o1] == ops_dv(nodes[k2])[o2]
}

/// Claim (k2, o2) repeats an address already claimed by an earlier node.
pub open spec fn conflict_at(nodes: Seq<NamedNode>, k2: int, o2: int) -> bool {
    exists|k1: int, o1: int| k1 < k2 && #[trigger] claim_eq(nodes, k1, o1, k2, o2)
}

/// Two distinct nodes claim one address.
pub open spec fn addr_conflict(nodes: Seq<NamedNode>) -> bool {
    exists|k2: int, o2: int| #[trigger] conflict_at(nodes, k2, o2)
}

/// Claim (k2, o2) is the first conflicting claim in traversal order.
pub open spec fn first_conflict(nodes: Seq<NamedNode>, k2: int, o2: int) -> bool {
    &&& conflict_at(nodes, k2, o2)
    &&& forall|k3: int, o3: int|
        (k3 < k2 || (k3 == k2 && o3 < o2)) ==> !#[trigger] conflict_at(nodes, k3, o3)
}

/// Scans every node's operator addresses in traversal order and reports the
/// first address claimed twice, with both claimants.
fn find_conflict(nodes: &Vec<NamedNode>) -> (r: Option<ReportError>)
    requires
        forall|k: int| 0 <= k < nodes@.len() ==> addr_set_ordered(ops_dv(#[trigger] nodes@[k])),
    ensures
        match r {
            Some(e) => {
                &&& addr_conflict(nodes@)
                &&& match e {
                    ReportError::AddressConflict { addr, first, second } => exists|
                        k1: int,
                        o1: int,
                        k2: int,
                        o2: int,
                    |
                        k1 < k2 && #[trigger] claim_eq(nodes@, k1, o1, k2, o2) && first_conflict(
                            nodes@,
                            k2,
                            o2,
                        ) && addr@ == ops_dv(nodes@[k2])[o2] && first@ == nodes@[k1].name@
                            && second@ == nodes@[k2].name@,
                }
            },
            None => !addr_conflict(nodes@),
        },
{
    let n = nodes.len();
    let mut k2: usize = 0;
    while k2 < n
        invariant
            n == nodes@.len(),
            k2 <= n,
            forall|k3: int, o3: int|
                0 <= k3 < k2 && 0 <= o3 < ops_dv(nodes@[k3]).len() ==> !#[trigger] conflict_at(
                    nodes@,
                    k3,
                    o3,
                ),
        decreases n - k2,
    {
        let ops2 = &nodes[k2].operators;
        proof {
            lemma_ops_dv(nodes@[k2 as int]);
        }
        let mut o2: usize = 0;
        while o2 < ops2.len()
            invariant
                n == nodes@.len(),
                k2 < n,
                o2 <= ops2.len(),
                ops2@ == nodes@[k2 as int].operators@,
                ops2@.len() == ops_dv(nodes@[k2 as int]).len(),
                forall|o: int|
                    0 <= o < ops2@.len() ==> #[trigger] ops_dv(nodes@[k2 as int])[o] == ops2@[o]@,
                forall|k3: int, o3: int|
                    0 <= k3 < k2 && 0 <= o3 < ops_dv(nodes@[k3]).len() ==> !#[trigger] conflict_at(
                        nodes@,
                        k3,
                        o3,
                    ),
                forall|o3: int|
                    0 <= o3 < o2 ==> !#[trigger] conflict_at(nodes@, k2 as int, o3),
            decreases ops2.len() - o2,
        {
            let cur = &ops2[o2];
            proof {
                assert(cur@ == ops_dv(nodes@[k2 as int])[o2 as int]);
            }
            let mut k1: usize = 0;
            while k1 < k2
                invariant
                    n == nodes@.len(),
                    k2 < n,
                    o2 < ops2@.len(),
                    k1 <= k2,
                    ops2@ == nodes@[k2 as int].operators@,
                    ops2@.len() == ops_dv(nodes@[k2 as int]).len(),
                    cur@ == ops_dv(nodes@[k2 as int])[o2 as int],
                    forall|k3: int, o3: int|
                        0 <= k3 < k2 && 0 <= o3 < ops_dv(nodes@[k3]).len() ==> !#[trigger] conflict_at(
                            nodes@,
                            k3,
                            o3,
                        ),
                    forall|o3: int|
                        0 <= o3 < o2 ==> !#[trigger] conflict_at(nodes@, k2 as int, o3),
                    forall|k0: int, o0: int|
                        0 <= k0 < k1 && 0 <= o0 < ops_dv(nodes@[k0]).len() ==> !#[trigger] claim_eq(
                            nodes@,
                            k0,
                            o0,
                            k2 as int,
                            o2 as int,
                        ),
                decreases k2 - k1,
            {
                let ops1 = &nodes[k1].operators;
                proof {
                    lemma_ops_dv(nodes@[k1 as int]);
                }
                let mut o1: usize = 0;
                while o1 < ops1.len()
                    invariant
                        n == nodes@.len(),
                        k2 < n,
                        k1 < k2,
                        o2 < ops2@.len(),
                        o1 <= ops1.len(),
                        ops1@ == nodes@[k1 as int].operators@,
                        ops1@.len() == ops_dv(nodes@[k1 as int]).len(),
                        forall|o: int|
                            0 <= o < ops1@.len() ==> #[trigger] ops_dv(nodes@[k1 as int])[o]
                                == ops1@[o]@,
                        ops2@ == nodes@[k2 as int].operators@,
                        ops2@.len() == ops_dv(nodes@[k2 as int]).len(),
                        cur@ == ops_dv(nodes@[k2 as int])[o2 as int],
                        forall|k3: int, o3: int|
                            0 <= k3 < k2 && 0 <= o3 < ops_dv(nodes@[k3]).len() ==> !#[trigger] conflict_at(
                                nodes@,
                                k3,
                                o3,
                            ),
                        forall|o3: int|
                            0 <= o3 < o2 ==> !#[trigger] conflict_at(nodes@, k2 as int, o3),
                        forall|o0: int|
                            0 <= o0 < o1 ==> !#[trigger] claim_eq(
                                nodes@,
                                k1 as int,
                                o0,
                                k2 as int,
                                o2 as int,
                            ),
                    decreases ops1.len() - o1,
                {
                    if crate::addr::addr_eq(&ops1[o1], cur) {
                        let addr = cur.copy();
                        let first = copy_name(&nodes[k1].name);
                        let second = copy_name(&nodes[k2].name);
                        proof {
                            assert(ops_dv(nodes@[k1 as int])[o1 as int] == ops1@[o1 as int]@);
                            assert(claim_eq(
                                nodes@,
                                k1 as int,
                                o1 as int,
                                k2 as int,
                                o2 as int,
                            ));
                            assert(conflict_at(nodes@, k2 as int, o2 as int));
                            assert forall|k3: int, o3: int|
                                (k3 < k2 as int || (k3 == k2 as int && o3 < o2 as int))
                                implies !#[trigger] conflict_at(nodes@, k3, o3) by {
                                if conflict_at(nodes@, k3, o3) {
                                    let (ka, oa) = choose|ka: int, oa: int|
                                        ka < k3 && #[trigger] claim_eq(nodes@, ka, oa, k3, o3);
                                    assert(0 <= k3 < nodes@.len());
                                    assert(0 <= o3 < ops_dv(nodes@[k3]).len());
                                }
                            }
                            assert(first_conflict(nodes@, k2 as int, o2 as int));
                        }
                        return Some(
                            ReportError::AddressConflict { addr: addr.0, first, second },
                        );
                    }
                    o1 += 1;
                }
                k1 += 1;
                proof {
                    assert forall|k0: int, o0: int|
                        0 <= k0 < k1 && 0 <= o0 < ops_dv(nodes@[k0]).len() implies !#[trigger] claim_eq(
                        nodes@,
                        k0,
                        o0,
                        k2 as int,
                        o2 as int,
                    ) by {}
                }
            }
            o2 += 1;
            proof {
                assert forall|o3: int| 0 <= o3 < o2 implies !#[trigger] conflict_at(
                    nodes@,
                    k2 as int,
                    o3,
                ) by {
                    if conflict_at(nodes@, k2 as int, o3) && o3 == o2 - 1 {
                        let (ka, oa) = choose|ka: int, oa: int|
                            ka < k2 as int && #[trigger] claim_eq(nodes@, ka, oa, k2 as int, o3);
                        assert(!claim_eq(nodes@, ka, oa, k2 as int, o3));
                    }
                }
            }
        }
        k2 += 1;
        proof {
            assert forall|k3: int, o3: int|
                0 <= k3 < k2 && 0 <= o3 < ops_dv(nodes@[k3]).len() implies !#[trigger] conflict_at(
                nodes@,
                k3,
                o3,
            ) by {}
        }
    }
    proof {
        if addr_conflict(nodes@) {
            let (k2g, o2g) = choose|k2g: int, o2g: int| #[trigger] conflict_at(nodes@, k2g, o2g);
            let (k1g, o1g) = choose|k1g: int, o1g: int|
                k1g < k2g && #[trigger] claim_eq(nodes@, k1g, o1g, k2g, o2g);
            assert(0 <= k2g < nodes@.len() && 0 <= o2g < ops_dv(nodes@[k2g]).len());
            assert(!conflict_at(nodes@, k2g, o2g));
        }
    }
    None
}

// ---------------------------------------------------------------------------
// The resolved report.
// ---------------------------------------------------------------------------

/// A parent list is the normalized form of `c`'s parent set.
pub open spec fn parents_norm_ok(nodes: Seq<NamedNode>, c: Seq<u8>, dv: Seq<Seq<u8>>) -> bool {
    &&& sorted_by(dv, name_leq())
    &&& dv.no_duplicates()
    &&& dv.to_set() == parent_set(nodes, c)
}

/// One operator view carries exactly its log row.
pub open spec fn op_view_matches(rows: Seq<LogRow>, ov: OperatorView) -> bool {
    &&& crate::log::rows_have_addr(rows, ov.addr@)
    &&& ov.op_name@ == rows[crate::log::rows_addr_index(rows, ov.addr@)].op_name@
    &&& ov.activations == rows[crate::log::rows_addr_index(rows, ov.addr@)].activations
    &&& ov.total_active_us == rows[crate::log::rows_addr_index(rows, ov.addr@)].total_active_us
}

/// One resolved node view is exactly what the model prescribes for node `k`.
pub open spec fn view_matches_node(
    nodes: Seq<NamedNode>,
    rows: Seq<LogRow>,
    k: int,
    v: NameNodeView,
) -> bool {
    &&& v.name@ == nodes[k].name@
    &&& v.label@ == nodes[k].label@
    &&& parents_norm_ok(nodes, nodes[k].name@, v.dag_parents.deep_view())
    &&& (v.dag_parents@.len() == 0 ==> v.extra_parents@.len() == 0)
    &&& (v.dag_parents@.len() > 0 ==> v.extra_parents.deep_view()
        == v.dag_parents.deep_view().drop_first())
    &&& sorted_by(v.children.deep_view(), name_leq())
    &&& v.children.deep_view().no_duplicates()
    &&& forall|q: Seq<u8>|
        #[trigger] v.children.deep_view().to_set().contains(q) <==> (exists|c2: int|
            0 <= c2 < nodes.len() && (#[trigger] nodes[c2]).name@ == q && is_primary_parent(
                nodes,
                q,
                nodes[k].name@,
            ))
    &&& v.self_activations == ops_sum(ops_dv(nodes[k]), rows, f_act())
    &&& v.self_total_active_us == ops_sum(ops_dv(nodes[k]), rows, f_us())
    &&& v.operators@.map_values(|ov: OperatorView| ov.addr@) == mapped_addrs(
        ops_dv(nodes[k]),
        rows,
    )
    &&& forall|m: int|
        0 <= m < v.operators@.len() ==> op_view_matches(rows, #[trigger] v.operators@[m])
}

/// The root list is the normalized union of the supplied roots and every
/// node without a parent.
pub open spec fn roots_ok(
    nodes: Seq<NamedNode>,
    roots_in: Seq<Seq<u8>>,
    rdv: Seq<Seq<u8>>,
) -> bool {
    &&& sorted_by(rdv, name_leq())
    &&& rdv.no_duplicates()
    &&& forall|q: Seq<u8>|
        #[trigger] rdv.to_set().contains(q) <==> (roots_in.to_set().contains(q) || (exists|
            k: int,
        |
            0 <= k < nodes.len() && (#[trigger] nodes[k]).name@ == q && !has_parent(nodes, q)))
}

/// What the whole report promises (rules aside).
pub open spec fn report_matches(
    nodes: Seq<NamedNode>,
    roots_in: Seq<Seq<u8>>,
    rows: Seq<LogRow>,
    rep: ReportData,
) -> bool {
    &&& rep.nodes@.len() == nodes.len()
    &&& forall|k: int|
        0 <= k < nodes.len() ==> view_matches_node(nodes, rows, k, #[trigger] rep.nodes@[k])
    &&& roots_ok(nodes, roots_in, rep.roots.deep_view())
    &&& rep.totals.names == nodes.len()
    &&& rep.totals.operators_in_log == rows.len()
    &&& rep.totals.operators_mapped == nodes_ops_sum(nodes, rows, f_one())
    &&& rep.totals.total_mapped_activations == nodes_ops_sum(nodes, rows, f_act())
    &&& rep.totals.total_mapped_us == nodes_ops_sum(nodes, rows, f_us())
}

/// The addresses claimed by all operator slots before position (k, o).
pub open spec fn claimed_before(nodes: Seq<NamedNode>, k: int, o: int) -> Set<Seq<u32>> {
    Set::new(
        |a: Seq<u32>|
            exists|k1: int, o1: int|
                0 <= k1 < nodes.len() && 0 <= o1 < ops_dv(nodes[k1]).len() && (k1 < k || (k1 == k
                    && o1 < o)) && #[trigger] ops_dv(nodes[k1])[o1] == a,
    )
}

/// All measured quantities are non-negative.
proof fn lemma_f_nonneg()
    ensures
        forall|r: LogRow| #[trigger] f_act()(r) >= 0,
        forall|r: LogRow| #[trigger] f_us()(r) >= 0,
        forall|r: LogRow| #[trigger] f_one()(r) >= 0,
{
}

/// Sums of non-negative measures are non-negative.
proof fn lemma_ops_sum_nonneg(ops: Seq<Seq<u32>>, rows: Seq<LogRow>, f: spec_fn(LogRow) -> int)
    requires
        forall|r: LogRow| #[trigger] f(r) >= 0,
    ensures
        ops_sum(ops, rows, f) >= 0,
    decreases ops.len(),
{
    if ops.len() > 0 {
        lemma_ops_sum_nonneg(ops.drop_last(), rows, f);
        if crate::log::rows_have_addr(rows, ops.last()) {
            assert(f(rows[crate::log::rows_addr_index(rows, ops.last())]) >= 0);
        }
    }
}

proof fn lemma_nodes_ops_sum_nonneg(nodes: Seq<NamedNode>, rows: Seq<LogRow>, f: spec_fn(LogRow) -> int)
    requires
        forall|r: LogRow| #[trigger] f(r) >= 0,
    ensures
        nodes_ops_sum(nodes, rows, f) >= 0,
    decreases nodes.len(),
{
    if nodes.len() > 0 {
        lemma_nodes_ops_sum_nonneg(nodes.drop_last(), rows, f);
        reveal(ops_dv);
        lemma_ops_sum_nonneg(nodes.last().operators.deep_view(), rows, f);
        assert(ops_sum(ops_dv(nodes.last()), rows, f) >= 0);
    }
}

/// Counting one per row sums to the number of rows.
proof fn lemma_sum_one(rows: Seq<LogRow>)
    ensures
        rows_sum(rows, f_one()) == rows.len(),
    decreases rows.len(),
{
    if rows.len() > 0 {
        lemma_sum_one(rows.drop_last());
    }
}

/// Copies a list of names.
fn copy_names(v: &Vec<Vec<u8>>) -> (r: Vec<Vec<u8>>)
    ensures
        r.deep_view() == v.deep_view(),
{
    let mut r: Vec<Vec<u8>> = Vec::new();
    let mut i: usize = 0;
    proof {
        assert(r.deep_view() =~= v.deep_view().take(0));
    }
    while i < v.len()
        invariant
            i <= v.len(),
            r.deep_view() == v.deep_view().take(i as int),
        decreases v.len() - i,
    {
        let ghost pre = r.deep_view();
        let nm = copy_name(&v[i]);
        r.push(nm);
        i += 1;
        proof {
            assert(nm.deep_view() =~= nm@);
            assert(r.deep_view() =~= pre.push(nm@));
            assert(v.deep_view()[i - 1] =~= v@[i - 1]@);
            assert(r.deep_view() =~= v.deep_view().take(i as int));
        }
    }
    proof {
        assert(v.deep_view().take(v@.len() as int) =~= v.deep_view());
    }
    r
}

/// Copies a list of names from its second element on.
fn copy_tail(v: &Vec<Vec<u8>>) -> (r: Vec<Vec<u8>>)
    requires
        v@.len() > 0,
    ensures
        r.deep_view() == v.deep_view().drop_first(),
{
    let mut r: Vec<Vec<u8>> = Vec::new();
    let mut i: usize = 1;
    proof {
        assert(r.deep_view() =~= v.deep_view().subrange(1, 1));
    }
    while i < v.len()
        invariant
            1 <= i <= v.len(),
            v@.len() > 0,
            r.deep_view() == v.deep_view().subrange(1, i as int),
        decreases v.len() - i,
    {
        let ghost pre = r.deep_view();
        let nm = copy_name(&v[i]);
        r.push(nm);
        i += 1;
        proof {
            assert(nm.deep_view() =~= nm@);
            assert(r.deep_view() =~= pre.push(nm@));
            assert(v.deep_view()[i - 1] =~= v@[i - 1]@);
            assert(r.deep_view() =~= v.deep_view().subrange(1, i as int));
        }
    }
    proof {
        assert(v.deep_view().subrange(1, v@.len() as int) =~= v.deep_view().drop_first());
    }
    r
}

/// The tree children of `me`: every node whose primary parent is `me`, in
/// name order.
fn tree_children_for(
    nodes: &Vec<NamedNode>,
    norm: &Vec<Vec<Vec<u8>>>,
    me: &Vec<u8>,
) -> (r: Vec<Vec<u8>>)
    requires
        nodes_named_sorted(nodes@),
        norm@.len() == nodes@.len(),
        forall|m: int|
            0 <= m < nodes@.len() ==> parents_norm_ok(
                nodes@,
                nodes@[m].name@,
                (#[trigger] norm@[m]).deep_view(),
            ),
    ensures
        sorted_by(r.deep_view(), name_leq()),
        r.deep_view().no_duplicates(),
        forall|q: Seq<u8>|
            #[trigger] r.deep_view().to_set().contains(q) <==> (exists|c2: int|
                0 <= c2 < nodes@.len() && (#[trigger] nodes@[c2]).name@ == q && is_primary_parent(
                    nodes@,
                    q,
                    me@,
                )),
{
    let mut r: Vec<Vec<u8>> = Vec::new();
    let mut c: usize = 0;
    while c < nodes.len()
        invariant
            c <= nodes.len(),
            nodes_named_sorted(nodes@),
            norm@.len() == nodes@.len(),
            forall|m: int|
                0 <= m < nodes@.len() ==> parents_norm_ok(
                    nodes@,
                    nodes@[m].name@,
                    (#[trigger] norm@[m]).deep_view(),
                ),
            forall|m: int|
                0 <= m < r.deep_view().len() ==> exists|c2: int|
                    0 <= c2 < c && (#[trigger] r.deep_view()[m]) == nodes@[c2].name@
                        && is_primary_parent(nodes@, nodes@[c2].name@, me@),
            forall|c2: int|
                0 <= c2 < c && is_primary_parent(nodes@, (#[trigger] nodes@[c2]).name@, me@)
                    ==> r.deep_view().to_set().contains(nodes@[c2].name@),
            sorted_by(r.deep_view(), name_leq()),
            r.deep_view().no_duplicates(),
        decreases nodes.len() - c,
    {
        let ghost pre = r.deep_view();
        let nps = &norm[c];
        let mut take_it: bool = false;
        if nps.len() > 0 {
            if name_eq(&nps[0], me) {
                take_it = true;
            }
            proof {
                assert(nps.deep_view()[0] =~= nps@[0]@);
            }
        }
        proof {
            let dv = norm@[c as int].deep_view();
            let cn = nodes@[c as int].name@;
            assert(parents_norm_ok(nodes@, cn, dv));
            if take_it {
                // the head of the normalized parents is the primary parent
                assert(dv.to_set().contains(dv[0]));
                assert forall|q2: Seq<u8>| #[trigger] parent_set(nodes@, cn).contains(q2)
                    implies name_le(me@, q2) by {
                    assert(dv.to_set().contains(q2));
                    let m = choose|m: int| 0 <= m < dv.len() && dv[m] == q2;
                    if m == 0 {
                        crate::order::lemma_name_le_refl(me@);
                    } else {
                        let leq = name_leq();
                        assert(leq(dv[0], dv[m]));
                    }
                }
                assert(is_primary_parent(nodes@, cn, me@));
            } else {
                // not primary: either no parent, or a smaller head
                if is_primary_parent(nodes@, cn, me@) {
                    assert(parent_set(nodes@, cn).contains(me@));
                    assert(dv.to_set().contains(me@));
                    let m = choose|m: int| 0 <= m < dv.len() && dv[m] == me@;
                    assert(dv.len() > 0);
                    assert(dv.to_set().contains(dv[0]));
                    assert(parent_set(nodes@, cn).contains(dv[0]));
                    assert(name_le(me@, dv[0]));
                    if m > 0 {
                        let leq = name_leq();
                        assert(leq(dv[0], dv[m]));
                        crate::order::lemma_name_le_antisym(me@, dv[0]);
                        assert(dv[0] == me@);
                        assert(false);
                    }
                    assert(false);
                }
            }
        }
        if take_it {
            let nm = copy_name(&nodes[c].name);
            r.push(nm);
            proof {
                assert(nm.deep_view() =~= nm@);
                assert(r.deep_view() =~= pre.push(nodes@[c as int].name@));
                let ndv = r.deep_view();
                let leq = name_leq();
                let names = names_of(nodes@);
                assert forall|p: int, q: int| 0 <= p < q < ndv.len() implies name_le(
                    #[trigger] ndv[p],
                    #[trigger] ndv[q],
                ) && ndv[p] != ndv[q] by {
                    if q == ndv.len() - 1 {
                        let c2 = choose|c2: int|
                            0 <= c2 < c && (#[trigger] pre[p]) == nodes@[c2].name@
                                && is_primary_parent(nodes@, nodes@[c2].name@, me@);
                        assert(names[c2] == nodes@[c2].name@);
                        assert(names[c as int] == nodes@[c as int].name@);
                        assert(leq(names[c2], names[c as int]));
                        assert(names[c2] != names[c as int]);
                        assert(name_le(ndv[p], ndv[q]));
                    } else {
                        assert(leq(pre[p], pre[q]));
                        assert(pre[p] != pre[q]);
                        assert(name_le(ndv[p], ndv[q]));
                    }
                }
                assert forall|p: int, q: int| 0 <= p < q < ndv.len() implies #[trigger] leq(
                    ndv[p],
                    ndv[q],
                ) by {
                    assert(name_le(ndv[p], ndv[q]));
                }
                assert(sorted_by(ndv, leq));
                assert forall|i2: int, j2: int|
                    0 <= i2 < ndv.len() && 0 <= j2 < ndv.len() && i2 != j2 implies #[trigger] ndv[i2]
                    != #[trigger] ndv[j2] by {
                    if i2 < j2 {
                        assert(name_le(ndv[i2], ndv[j2]) && ndv[i2] != ndv[j2]);
                    } else {
                        assert(name_le(ndv[j2], ndv[i2]) && ndv[j2] != ndv[i2]);
                    }
                }
                assert(ndv.no_duplicates());
            }
        }
        c += 1;
        proof {
            let ndv = r.deep_view();
            assert forall|m: int| 0 <= m < ndv.len() implies exists|c2: int|
                0 <= c2 < c && (#[trigger] ndv[m]) == nodes@[c2].name@ && is_primary_parent(
                    nodes@,
                    nodes@[c2].name@,
                    me@,
                ) by {
                if m < pre.len() {
                    assert(ndv[m] == pre[m]);
                    let c2 = choose|c2: int|
                        0 <= c2 < c - 1 && (#[trigger] pre[m]) == nodes@[c2].name@
                            && is_primary_parent(nodes@, nodes@[c2].name@, me@);
                    assert(ndv[m] == nodes@[c2].name@ && is_primary_parent(
                        nodes@,
                        nodes@[c2].name@,
                        me@,
                    ));
                } else {
                    assert(take_it);
                    assert(ndv[m] == nodes@[c as int - 1].name@);
                }
            }
            assert forall|c2: int|
                0 <= c2 < c && is_primary_parent(nodes@, (#[trigger] nodes@[c2]).name@, me@)
                implies ndv.to_set().contains(nodes@[c2].name@) by {
                if c2 < c - 1 {
                    assert(pre.to_set().contains(nodes@[c2].name@));
                    let m = choose|m: int| 0 <= m < pre.len() && pre[m] == nodes@[c2].name@;
                    assert(ndv[m] == nodes@[c2].name@);
                } else {
                    assert(take_it);
                    assert(ndv[ndv.len() - 1] == nodes@[c2].name@);
                }
            }
        }
    }
    proof {
        assert forall|q: Seq<u8>| #[trigger] r.deep_view().to_set().contains(q) implies (exists|
            c2: int,
        |
            0 <= c2 < nodes@.len() && (#[trigger] nodes@[c2]).name@ == q && is_primary_parent(
                nodes@,
                q,
                me@,
            )) by {
            let m = choose|m: int| 0 <= m < r.deep_view().len() && r.deep_view()[m] == q;
            let c2 = choose|c2: int|
                0 <= c2 < nodes@.len() && (#[trigger] r.deep_view()[m]) == nodes@[c2].name@
                    && is_primary_parent(nodes@, nodes@[c2].name@, me@);
            assert(nodes@[c2].name@ == q && is_primary_parent(nodes@, q, me@));
        }
    }
    r
}

/// Binds one node's operator addresses to log rows, accumulating its own
/// metrics, the report-wide totals, and the unmatched-address diagnostics.
fn aggregate_node(
    nodes: &Vec<NamedNode>,
    k: usize,
    log: &LogIndex,
    tot_act: &mut u64,
    tot_us: &mut u64,
    cnt: &mut usize,
    warns: &mut Vec<UnmappedWarning>,
) -> (r: (Vec<OperatorView>, u64, u64))
    requires
        k < nodes@.len(),
        log.wf(),
        !addr_conflict(nodes@),
        forall|kk: int| 0 <= kk < nodes@.len() ==> addr_set_ordered(ops_dv(#[trigger] nodes@[kk])),
        rows_sum(log.rows(), f_act()) <= u64::MAX,
        rows_sum(log.rows(), f_us()) <= u64::MAX,
        *old(tot_act) == nodes_ops_sum(nodes@.take(k as int), log.rows(), f_act()),
        *old(tot_us) == nodes_ops_sum(nodes@.take(k as int), log.rows(), f_us()),
        *old(cnt) == nodes_ops_sum(nodes@.take(k as int), log.rows(), f_one()),
        old(warns)@.map_values(|w: UnmappedWarning| (w.name@, w.addr@)) == all_warn_pairs(
            nodes@.take(k as int),
            log.rows(),
        ),
        *old(tot_act) == rows_sum_if(log.rows(), claimed_before(nodes@, k as int, 0), f_act()),
        *old(tot_us) == rows_sum_if(log.rows(), claimed_before(nodes@, k as int, 0), f_us()),
        *old(cnt) == rows_sum_if(log.rows(), claimed_before(nodes@, k as int, 0), f_one()),
    ensures
        *final(tot_act) == nodes_ops_sum(nodes@.take(k + 1), log.rows(), f_act()),
        *final(tot_us) == nodes_ops_sum(nodes@.take(k + 1), log.rows(), f_us()),
        *final(cnt) == nodes_ops_sum(nodes@.take(k + 1), log.rows(), f_one()),
        final(warns)@.map_values(|w: UnmappedWarning| (w.name@, w.addr@)) == all_warn_pairs(
            nodes@.take(k + 1),
            log.rows(),
        ),
        *final(tot_act) == rows_sum_if(log.rows(), claimed_before(nodes@, k + 1, 0), f_act()),
        *final(tot_us) == rows_sum_if(log.rows(), claimed_before(nodes@, k + 1, 0), f_us()),
        *final(cnt) == rows_sum_if(log.rows(), claimed_before(nodes@, k + 1, 0), f_one()),
        r.1 == ops_sum(ops_dv(nodes@[k as int]), log.rows(), f_act()),
        r.2 == ops_sum(ops_dv(nodes@[k as int]), log.rows(), f_us()),
        r.0@.map_values(|ov: OperatorView| ov.addr@) == mapped_addrs(
            ops_dv(nodes@[k as int]),
            log.rows(),
        ),
        forall|m: int| 0 <= m < r.0@.len() ==> op_view_matches(log.rows(), #[trigger] r.0@[m]),
{
    let ghost rows = log.rows();
    let ghost nk = nodes@[k as int];
    let ghost wview = |w: UnmappedWarning| (w.name@, w.addr@);
    let nops = &nodes[k].operators;
    let _rows_count = log.len();
    proof {
        assert(rows.len() <= usize::MAX);
        lemma_ops_dv(nodes@[k as int]);
        lemma_f_nonneg();
        // the sums so far are sums over the claimed address set
        assert(nodes@.take(k as int + 1).drop_last() =~= nodes@.take(k as int));
        assert(nodes@.take(k as int + 1).last() == nk);
    }
    let mut ovs: Vec<OperatorView> = Vec::new();
    let mut self_act: u64 = 0;
    let mut self_us: u64 = 0;
    let mut o: usize = 0;
    proof {
        assert(ops_dv(nk).take(0) =~= Seq::<Seq<u32>>::empty());
        assert(mapped_addrs(ops_dv(nk).take(0), rows) =~= Seq::<Seq<u32>>::empty());
        assert(unmapped_addrs(ops_dv(nk).take(0), rows) =~= Seq::<Seq<u32>>::empty());
        assert(ovs@.map_values(|ov: OperatorView| ov.addr@) =~= mapped_addrs(
            ops_dv(nk).take(0),
            rows,
        ));
        assert(warns@.map_values(wview) =~= all_warn_pairs(nodes@.take(k as int), rows)
            + unmapped_addrs(ops_dv(nk).take(0), rows).map_values(|a: Seq<u32>| (nk.name@, a)));
    }
    while o < nops.len()
        invariant
            o <= nops.len(),
            k < nodes@.len(),
            log.wf(),
            rows == log.rows(),
            nk == nodes@[k as int],
            wview == (|w: UnmappedWarning| (w.name@, w.addr@)),
            nops@ == nodes@[k as int].operators@,
            nops@.len() == ops_dv(nk).len(),
            forall|oo: int| 0 <= oo < nops@.len() ==> #[trigger] ops_dv(nk)[oo] == nops@[oo]@,
            !addr_conflict(nodes@),
            forall|kk: int|
                0 <= kk < nodes@.len() ==> addr_set_ordered(ops_dv(#[trigger] nodes@[kk])),
            rows_sum(rows, f_act()) <= u64::MAX,
            rows_sum(rows, f_us()) <= u64::MAX,
            rows.len() <= usize::MAX,
            *tot_act == nodes_ops_sum(nodes@.take(k as int), rows, f_act()) + ops_sum(
                ops_dv(nk).take(o as int),
                rows,
                f_act(),
            ),
            *tot_us == nodes_ops_sum(nodes@.take(k as int), rows, f_us()) + ops_sum(
                ops_dv(nk).take(o as int),
                rows,
                f_us(),
            ),
            *cnt == nodes_ops_sum(nodes@.take(k as int), rows, f_one()) + ops_sum(
                ops_dv(nk).take(o as int),
                rows,
                f_one(),
            ),
            *tot_act == rows_sum_if(rows, claimed_before(nodes@, k as int, o as int), f_act()),
            *tot_us == rows_sum_if(rows, claimed_before(nodes@, k as int, o as int), f_us()),
            *cnt == rows_sum_if(rows, claimed_before(nodes@, k as int, o as int), f_one()),
            self_act == ops_sum(ops_dv(nk).take(o as int), rows, f_act()),
            self_us == ops_sum(ops_dv(nk).take(o as int), rows, f_us()),
            ovs@.map_values(|ov: OperatorView| ov.addr@) == mapped_addrs(
                ops_dv(nk).take(o as int),
                rows,
            ),
            forall|m: int| 0 <= m < ovs@.len() ==> op_view_matches(rows, #[trigger] ovs@[m]),
            warns@.map_values(wview) == all_warn_pairs(nodes@.take(k as int), rows)
                + unmapped_addrs(ops_dv(nk).take(o as int), rows).map_values(
                |a: Seq<u32>| (nk.name@, a),
            ),
        decreases nops.len() - o,
    {
        let cur = &nops[o];
        let ghost a = cur@;
        let ghost claimed = claimed_before(nodes@, k as int, o as int);
        proof {
            assert(a == ops_dv(nk)[o as int]);
            assert(ops_dv(nk).take(o as int + 1).drop_last() =~= ops_dv(nk).take(o as int));
            assert(ops_dv(nk).take(o as int + 1).last() == a);
            // the current address is not yet claimed
            assert(!claimed.contains(a)) by {
                if claimed.contains(a) {
                    let (k1, o1) = choose|k1: int, o1: int|
                        0 <= k1 < nodes@.len() && 0 <= o1 < ops_dv(nodes@[k1]).len() && (k1
                            < k as int || (k1 == k as int && o1 < o as int)) && #[trigger] ops_dv(
                            nodes@[k1],
                        )[o1] == a;
                    if k1 == k as int {
                        assert(ops_dv(nk).no_duplicates());
                        assert(false);
                    } else {
                        assert(claim_eq(nodes@, k1, o1, k as int, o as int));
                        assert(conflict_at(nodes@, k as int, o as int));
                        assert(addr_conflict(nodes@));
                        assert(false);
                    }
                }
            }
            // claiming it moves each total up by exactly this row's values
            lemma_sum_if_insert(rows, claimed, a, f_act());
            lemma_sum_if_insert(rows, claimed, a, f_us());
            lemma_sum_if_insert(rows, claimed, a, f_one());
            lemma_count_lookup(rows, a, f_act());
            lemma_count_lookup(rows, a, f_us());
            lemma_count_lookup(rows, a, f_one());
            assert(claimed_before(nodes@, k as int, o as int + 1) =~= claimed.insert(a)) by {
                assert forall|x: Seq<u32>|
                    claimed_before(nodes@, k as int, o as int + 1).contains(x)
                    implies claimed.insert(a).contains(x) by {
                    let (k1, o1) = choose|k1: int, o1: int|
                        0 <= k1 < nodes@.len() && 0 <= o1 < ops_dv(nodes@[k1]).len() && (k1
                            < k as int || (k1 == k as int && o1 < o as int + 1))
                            && #[trigger] ops_dv(nodes@[k1])[o1] == x;
                    if k1 == k as int && o1 == o as int {
                        assert(x == a);
                    } else {
                        assert(claimed.contains(x));
                    }
                }
                assert forall|x: Seq<u32>| claimed.insert(a).contains(x)
                    implies claimed_before(nodes@, k as int, o as int + 1).contains(x) by {
                    if x == a {
                        assert(ops_dv(nodes@[k as int])[o as int] == x);
                    } else {
                        let (k1, o1) = choose|k1: int, o1: int|
                            0 <= k1 < nodes@.len() && 0 <= o1 < ops_dv(nodes@[k1]).len() && (k1
                                < k as int || (k1 == k as int && o1 < o as int))
                                && #[trigger] ops_dv(nodes@[k1])[o1] == x;
                        assert(ops_dv(nodes@[k1])[o1] == x);
                    }
                }
            }
            lemma_sum_if_le(rows, claimed.insert(a), f_act());
            lemma_sum_if_le(rows, claimed.insert(a), f_us());
            lemma_sum_if_le(rows, claimed.insert(a), f_one());
            lemma_sum_one(rows);
            lemma_nodes_ops_sum_nonneg(nodes@.take(k as int), rows, f_act());
            lemma_nodes_ops_sum_nonneg(nodes@.take(k as int), rows, f_us());
        }
        match log.get(cur) {
            Some(row) => {
                let ov = OperatorView {
                    addr: row.addr.copy().0,
                    op_name: row.op_name.clone(),
                    activations: row.activations,
                    total_active_us: row.total_active_us,
                };
                let ghost pre_ovs = ovs@;
                ovs.push(ov);
                self_act = self_act + row.activations;
                self_us = self_us + row.total_active_us;
                *tot_act = *tot_act + row.activations;
                *tot_us = *tot_us + row.total_active_us;
                *cnt = *cnt + 1;
                proof {
                    let f = |ov2: OperatorView| ov2.addr@;
                    assert(ovs@.map_values(f) =~= pre_ovs.map_values(f).push(a));
                    assert(mapped_addrs(ops_dv(nk).take(o as int + 1), rows) =~= mapped_addrs(
                        ops_dv(nk).take(o as int),
                        rows,
                    ).push(a));
                    assert(ovs@.map_values(f) =~= mapped_addrs(
                        ops_dv(nk).take(o as int + 1),
                        rows,
                    ));
                    assert(op_view_matches(rows, ov));
                    assert(unmapped_addrs(ops_dv(nk).take(o as int + 1), rows) =~= unmapped_addrs(
                        ops_dv(nk).take(o as int),
                        rows,
                    ));
                }
            },
            None => {
                let ghost pre_w = warns@;
                let w = UnmappedWarning { name: copy_name(&nodes[k].name), addr: cur.copy().0 };
                warns.push(w);
                proof {
                    assert(warns@.map_values(wview) =~= pre_w.map_values(wview).push(
                        (nk.name@, a),
                    ));
                    assert(unmapped_addrs(ops_dv(nk).take(o as int + 1), rows) =~= unmapped_addrs(
                        ops_dv(nk).take(o as int),
                        rows,
                    ).push(a));
                    let g = |a2: Seq<u32>| (nk.name@, a2);
                    assert(warns@.map_values(wview) =~= all_warn_pairs(nodes@.take(k as int), rows)
                        + unmapped_addrs(ops_dv(nk).take(o as int + 1), rows).map_values(g));
                    assert(mapped_addrs(ops_dv(nk).take(o as int + 1), rows) =~= mapped_addrs(
                        ops_dv(nk).take(o as int),
                        rows,
                    ));
                }
            },
        }
        o += 1;
    }
    proof {
        assert(ops_dv(nk).take(nops@.len() as int) =~= ops_dv(nk));
        assert(claimed_before(nodes@, k as int, nops@.len() as int) =~= claimed_before(
            nodes@,
            k as int + 1,
            0,
        )) by {
            assert forall|x: Seq<u32>|
                claimed_before(nodes@, k as int, nops@.len() as int).contains(x)
                implies claimed_before(nodes@, k as int + 1, 0).contains(x) by {
                let (k1, o1) = choose|k1: int, o1: int|
                    0 <= k1 < nodes@.len() && 0 <= o1 < ops_dv(nodes@[k1]).len() && (k1
                        < k as int || (k1 == k as int && o1 < nops@.len() as int))
                        && #[trigger] ops_dv(nodes@[k1])[o1] == x;
                assert(ops_dv(nodes@[k1])[o1] == x && k1 < k as int + 1);
            }
            assert forall|x: Seq<u32>| claimed_before(nodes@, k as int + 1, 0).contains(x)
                implies claimed_before(nodes@, k as int, nops@.len() as int).contains(x) by {
                let (k1, o1) = choose|k1: int, o1: int|
                    0 <= k1 < nodes@.len() && 0 <= o1 < ops_dv(nodes@[k1]).len() && (k1 < k as int
                        + 1) && #[trigger] ops_dv(nodes@[k1])[o1] == x;
                assert(ops_dv(nodes@[k1])[o1] == x);
                if k1 == k as int {
                    assert(o1 < nops@.len());
                }
            }
        }
        assert(nodes_ops_sum(nodes@.take(k as int + 1), rows, f_act()) == nodes_ops_sum(
            nodes@.take(k as int),
            rows,
            f_act(),
        ) + ops_sum(ops_dv(nk), rows, f_act())) by {
            assert(nodes@.take(k as int + 1).drop_last() =~= nodes@.take(k as int));
            reveal(ops_dv);
        }
        assert(nodes_ops_sum(nodes@.take(k as int + 1), rows, f_us()) == nodes_ops_sum(
            nodes@.take(k as int),
            rows,
            f_us(),
        ) + ops_sum(ops_dv(nk), rows, f_us())) by {
            assert(nodes@.take(k as int + 1).drop_last() =~= nodes@.take(k as int));
            reveal(ops_dv);
        }
        assert(nodes_ops_sum(nodes@.take(k as int + 1), rows, f_one()) == nodes_ops_sum(
            nodes@.take(k as int),
            rows,
            f_one(),
        ) + ops_sum(ops_dv(nk), rows, f_one())) by {
            assert(nodes@.take(k as int + 1).drop_last() =~= nodes@.take(k as int));
            reveal(ops_dv);
        }
        assert(all_warn_pairs(nodes@.take(k as int + 1), rows) =~= all_warn_pairs(
            nodes@.take(k as int),
            rows,
        ) + node_warn_pairs(nk, rows)) by {
            assert(nodes@.take(k as int + 1).drop_last() =~= nodes@.take(k as int));
            reveal(ops_dv);
        }
        assert(node_warn_pairs(nk, rows) =~= unmapped_addrs(ops_dv(nk), rows).map_values(
            |a2: Seq<u32>| (nk.name@, a2),
        )) by {
            reveal(ops_dv);
        }
    }
    (ovs, self_act, self_us)
}

// ---------------------------------------------------------------------------
// Per-rule sub-DAG views.
// ---------------------------------------------------------------------------

/// The occurrences of `fp` among one entry's children, each contributing
/// the entry's fingerprint once.
pub open spec fn child_contrib(pn: Seq<u8>, children: Seq<Vec<u8>>, fp: Seq<u8>) -> Seq<Seq<u8>>
    decreases children.len(),
{
    if children.len() == 0 {
        Seq::empty()
    } else {
        child_contrib(pn, children.drop_last(), fp) + if children.last()@ == fp {
            seq![pn]
        } else {
            Seq::empty()
        }
    }
}

/// The local parent list of `fp` within one rule, in entry order, one
/// occurrence per declaring child edge.
pub open spec fn parents_of_fp(rnodes: Seq<RuleNodeSpec>, fp: Seq<u8>) -> Seq<Seq<u8>>
    decreases rnodes.len(),
{
    if rnodes.len() == 0 {
        Seq::empty()
    } else {
        parents_of_fp(rnodes.drop_last(), fp) + child_contrib(
            rnodes.last().fingerprint@,
            rnodes.last().children@,
            fp,
        )
    }
}

/// First match of a fingerprint in the fingerprint-to-node mapping.
pub open spec fn fp_lookup(m: Seq<(Vec<u8>, Vec<u8>)>, fp: Seq<u8>) -> Option<Seq<u8>>
    decreases m.len(),
{
    if m.len() == 0 {
        None
    } else if m[0].0@ == fp {
        Some(m[0].1@)
    } else {
        fp_lookup(m.drop_first(), fp)
    }
}

/// Some node carries this name.
pub open spec fn names_contain(nodes: Seq<NamedNode>, q: Seq<u8>) -> bool {
    exists|k: int| 0 <= k < nodes.len() && (#[trigger] nodes[k]).name@ == q
}

/// The label of the (unique) node carrying this name.
pub open spec fn label_of(nodes: Seq<NamedNode>, q: Seq<u8>) -> Seq<char> {
    nodes[choose|k: int| 0 <= k < nodes.len() && (#[trigger] nodes[k]).name@ == q].label@
}

/// One resolved rule entry is exactly what the model prescribes.
pub open spec fn rule_entry_matches(
    rnodes: Seq<RuleNodeSpec>,
    nodes: Seq<NamedNode>,
    fpmap: Seq<(Vec<u8>, Vec<u8>)>,
    e: RuleNodeSpec,
    v: RulePlanNodeView,
) -> bool {
    &&& v.fingerprint@ == e.fingerprint@
    &&& v.children.deep_view() == e.children.deep_view()
    &&& v.parents.deep_view() == parents_of_fp(rnodes, e.fingerprint@)
    &&& v.shared == (parents_of_fp(rnodes, e.fingerprint@).len() > 1)
    &&& match fp_lookup(fpmap, e.fingerprint@) {
        Option::None => v.node is None && v.label is None,
        Option::Some(nm) => {
            &&& v.node matches Some(x) && x@ == nm
            &&& if names_contain(nodes, nm) {
                v.label matches Some(l) && l@ == label_of(nodes, nm)
            } else {
                v.label is None
            }
        },
    }
}

/// One resolved rule view is exactly what the model prescribes.
pub open spec fn rule_matches(
    ru: RuleSpec,
    nodes: Seq<NamedNode>,
    fpmap: Seq<(Vec<u8>, Vec<u8>)>,
    v: RuleView,
) -> bool {
    &&& v.text@ == ru.text@
    &&& v.root@ == ru.root@
    &&& v.nodes@.len() == ru.nodes@.len()
    &&& forall|ei: int|
        0 <= ei < ru.nodes@.len() ==> rule_entry_matches(
            ru.nodes@,
            nodes,
            fpmap,
            ru.nodes@[ei],
            #[trigger] v.nodes@[ei],
        )
}

/// All resolved rule views are exactly what the model prescribes.
pub open spec fn rule_views_match(
    rules: Seq<RuleSpec>,
    nodes: Seq<NamedNode>,
    fpmap: Seq<(Vec<u8>, Vec<u8>)>,
    vs: Seq<RuleView>,
) -> bool {
    &&& vs.len() == rules.len()
    &&& forall|ri: int|
        0 <= ri < rules.len() ==> rule_matches(rules[ri], nodes, fpmap, #[trigger] vs[ri])
}

/// The local parent list of one fingerprint within one rule.
fn gather_rule_parents(rnodes: &Vec<RuleNodeSpec>, fp: &Vec<u8>) -> (r: Vec<Vec<u8>>)
    ensures
        r.deep_view() == parents_of_fp(rnodes@, fp@),
{
    let mut r: Vec<Vec<u8>> = Vec::new();
    let mut ri: usize = 0;
    proof {
        assert(rnodes@.take(0) =~= Seq::<RuleNodeSpec>::empty());
        assert(r.deep_view() =~= parents_of_fp(rnodes@.take(0), fp@));
    }
    while ri < rnodes.len()
        invariant
            ri <= rnodes.len(),
            r.deep_view() == parents_of_fp(rnodes@.take(ri as int), fp@),
        decreases rnodes.len() - ri,
    {
        let rn = &rnodes[ri];
        let ghost base = parents_of_fp(rnodes@.take(ri as int), fp@);
        let mut ci: usize = 0;
        proof {
            assert(rn.children@.take(0) =~= Seq::<Vec<u8>>::empty());
            assert(child_contrib(rn.fingerprint@, rn.children@.take(0), fp@)
                =~= Seq::<Seq<u8>>::empty());
            assert(r.deep_view() =~= base + child_contrib(
                rn.fingerprint@,
                rn.children@.take(0),
                fp@,
            ));
        }
        while ci < rn.children.len()
            invariant
                ci <= rn.children@.len(),
                ri < rnodes.len(),
                rn == &rnodes@[ri as int],
                base == parents_of_fp(rnodes@.take(ri as int), fp@),
                r.deep_view() == base + child_contrib(
                    rn.fingerprint@,
                    rn.children@.take(ci as int),
                    fp@,
                ),
            decreases rn.children@.len() - ci,
        {
            let ghost pre = r.deep_view();
            let hit = name_eq(&rn.children[ci], fp);
            if hit {
                let pn = copy_name(&rn.fingerprint);
                r.push(pn);
                proof {
                    assert(pn.deep_view() =~= pn@);
                }
            }
            ci += 1;
            proof {
                assert(rn.children@.take(ci as int).drop_last() =~= rn.children@.take(
                    ci as int - 1,
                ));
                assert(rn.children@.take(ci as int).last() == rn.children@[ci as int - 1]);
                if hit {
                    assert(r.deep_view() =~= pre.push(rn.fingerprint@));
                    assert(child_contrib(rn.fingerprint@, rn.children@.take(ci as int), fp@)
                        =~= child_contrib(rn.fingerprint@, rn.children@.take(ci as int - 1), fp@)
                        .push(rn.fingerprint@));
                    assert(r.deep_view() =~= base + child_contrib(
                        rn.fingerprint@,
                        rn.children@.take(ci as int),
                        fp@,
                    ));
                } else {
                    assert(child_contrib(rn.fingerprint@, rn.children@.take(ci as int), fp@)
                        =~= child_contrib(rn.fingerprint@, rn.children@.take(ci as int - 1), fp@));
                }
            }
        }
        ri += 1;
        proof {
            assert(rn.children@.take(rn.children@.len() as int) =~= rn.children@);
            assert(rnodes@.take(ri as int).drop_last() =~= rnodes@.take(ri as int - 1));
            assert(rnodes@.take(ri as int).last() == rnodes@[ri as int - 1]);
            assert(parents_of_fp(rnodes@.take(ri as int), fp@) == base + child_contrib(
                rn.fingerprint@,
                rn.children@,
                fp@,
            ));
        }
    }
    proof {
        assert(rnodes@.take(rnodes@.len() as int) =~= rnodes@);
    }
    r
}

/// First match of a fingerprint in the mapping, as executable code.
fn fp_lookup_exec(m: &Vec<(Vec<u8>, Vec<u8>)>, fp: &Vec<u8>) -> (r: Option<Vec<u8>>)
    ensures
        match r {
            Some(nm) => fp_lookup(m@, fp@) == Some(nm@),
            None => fp_lookup(m@, fp@) is None,
        },
{
    let mut i: usize = 0;
    proof {
        assert(m@.skip(0) =~= m@);
    }
    while i < m.len()
        invariant
            i <= m@.len(),
            fp_lookup(m@, fp@) == fp_lookup(m@.skip(i as int), fp@),
        decreases m@.len() - i,
    {
        proof {
            assert(m@.skip(i as int)[0] == m@[i as int]);
            assert(m@.skip(i as int).drop_first() =~= m@.skip(i as int + 1));
        }
        if name_eq(&m[i].0, fp) {
            let nm = copy_name(&m[i].1);
            return Some(nm);
        }
        i += 1;
    }
    proof {
        assert(m@.skip(m@.len() as int).len() == 0);
    }
    None
}

/// Per declared rule, builds its local sub-DAG view: the rule's own child
/// edges are inverted for shared-node detection, and fingerprints are
/// resolved to node names and labels where a mapping exists.
pub fn build_rule_views(
    rules_spec: &Vec<RuleSpec>,
    nodes_spec: &Vec<NamedNode>,
    fingerprint_to_node: &Vec<(Vec<u8>, Vec<u8>)>,
) -> (r: Vec<RuleView>)
    requires
        nodes_named_sorted(nodes_spec@),
    ensures
        rule_views_match(rules_spec@, nodes_spec@, fingerprint_to_node@, r@),
{
    let mut out: Vec<RuleView> = Vec::new();
    let mut ri: usize = 0;
    while ri < rules_spec.len()
        invariant
            ri <= rules_spec@.len(),
            nodes_named_sorted(nodes_spec@),
            out@.len() == ri,
            forall|r2: int|
                0 <= r2 < ri ==> rule_matches(
                    rules_spec@[r2],
                    nodes_spec@,
                    fingerprint_to_node@,
                    #[trigger] out@[r2],
                ),
        decreases rules_spec@.len() - ri,
    {
        let ru = &rules_spec[ri];
        let mut entries: Vec<RulePlanNodeView> = Vec::new();
        let mut ei: usize = 0;
        while ei < ru.nodes.len()
            invariant
                ei <= ru.nodes@.len(),
                ru == &rules_spec@[ri as int],
                ri < rules_spec@.len(),
                nodes_named_sorted(nodes_spec@),
                entries@.len() == ei,
                forall|e2: int|
                    0 <= e2 < ei ==> rule_entry_matches(
                        ru.nodes@,
                        nodes_spec@,
                        fingerprint_to_node@,
                        ru.nodes@[e2],
                        #[trigger] entries@[e2],
                    ),
            decreases ru.nodes@.len() - ei,
        {
            let e = &ru.nodes[ei];
            let parents = gather_rule_parents(&ru.nodes, &e.fingerprint);
            let shared = parents.len() > 1;
            let node_name = fp_lookup_exec(fingerprint_to_node, &e.fingerprint);
            let mut label: Option<String> = None;
            let mut node_out: Option<Vec<u8>> = None;
            match node_name {
                Some(nm) => {
                    let mut k: usize = 0;
                    let mut found: bool = false;
                    while k < nodes_spec.len()
                        invariant
                            k <= nodes_spec@.len(),
                            nodes_named_sorted(nodes_spec@),
                            nm@ == nm@,
                            !found ==> label is None && forall|k2: int|
                                0 <= k2 < k ==> (#[trigger] nodes_spec@[k2]).name@ != nm@,
                            found ==> names_contain(nodes_spec@, nm@) && (label matches Some(l)
                                && l@ == label_of(nodes_spec@, nm@)),
                        decreases nodes_spec@.len() - k,
                    {
                        if !found {
                            if name_eq(&nodes_spec[k].name, &nm) {
                                label = Some(nodes_spec[k].label.clone());
                                found = true;
                                proof {
                                    assert(names_contain(nodes_spec@, nm@));
                                    let k0 = choose|k0: int|
                                        0 <= k0 < nodes_spec@.len() && (#[trigger] nodes_spec@[
                                            k0
                                        ]).name@ == nm@;
                                    if k0 != k as int {
                                        let names = names_of(nodes_spec@);
                                        assert(names[k0] == nm@);
                                        assert(names[k as int] == nm@);
                                        assert(false);
                                    }
                                }
                            }
                        }
                        k += 1;
                    }
                    proof {
                        if !found {
                            if names_contain(nodes_spec@, nm@) {
                                let k0 = choose|k0: int|
                                    0 <= k0 < nodes_spec@.len() && (#[trigger] nodes_spec@[
                                        k0
                                    ]).name@ == nm@;
                                assert(false);
                            }
                        }
                    }
                    node_out = Some(nm);
                },
                None => {},
            }
            let v = RulePlanNodeView {
                fingerprint: copy_name(&e.fingerprint),
                node: node_out,
                label,
                children: copy_names(&e.children),
                parents,
                shared,
            };
            proof {
                assert(rule_entry_matches(
                    ru.nodes@,
                    nodes_spec@,
                    fingerprint_to_node@,
                    ru.nodes@[ei as int],
                    v,
                ));
            }
            entries.push(v);
            ei += 1;
        }
        let rv = RuleView {
            text: ru.text.clone(),
            root: copy_name(&ru.root),
            nodes: entries,
        };
        proof {
            assert(rule_matches(rules_spec@[ri as int], nodes_spec@, fingerprint_to_node@, rv));
        }
        out.push(rv);
        ri += 1;
    }
    out
}

/// Nothing is claimed: the partial sum is zero.
proof fn lemma_sum_if_empty(rows: Seq<LogRow>, s: Set<Seq<u32>>, f: spec_fn(LogRow) -> int)
    requires
        forall|a: Seq<u32>| !s.contains(a),
    ensures
        rows_sum_if(rows, s, f) == 0,
    decreases rows.len(),
{
    if rows.len() > 0 {
        lemma_sum_if_empty(rows.drop_last(), s, f);
    }
}

/// Builds the whole report: enforces exclusive address ownership, resolves
/// the canonical spanning tree, aggregates log rows per node and report-wide,
/// and assembles the per-rule sub-DAG views. Returns the report together
/// with one diagnostic per declared address that had no log row.
pub fn build_report_data(
    nodes_spec: &Vec<NamedNode>,
    roots: &Vec<Vec<u8>>,
    rules_spec: &Vec<RuleSpec>,
    fingerprint_to_node: &Vec<(Vec<u8>, Vec<u8>)>,
    log: &LogIndex,
) -> (r: Result<(ReportData, Vec<UnmappedWarning>), ReportError>)
    requires
        nodes_named_sorted(nodes_spec@),
        forall|k: int|
            0 <= k < nodes_spec@.len() ==> addr_set_ordered(ops_dv(#[trigger] nodes_spec@[k])),
        log.wf(),
        rows_sum(log.rows(), f_act()) <= u64::MAX,
        rows_sum(log.rows(), f_us()) <= u64::MAX,
    ensures
        match r {
            Ok(p) => {
                &&& !addr_conflict(nodes_spec@)
                &&& report_matches(nodes_spec@, roots.deep_view(), log.rows(), p.0)
                &&& rule_views_match(
                    rules_spec@,
                    nodes_spec@,
                    fingerprint_to_node@,
                    p.0.rules@,
                )
                &&& p.1@.map_values(|w: UnmappedWarning| (w.name@, w.addr@)) == all_warn_pairs(
                    nodes_spec@,
                    log.rows(),
                )
            },
            Err(e) => {
                &&& addr_conflict(nodes_spec@)
                &&& match e {
                    ReportError::AddressConflict { addr, first, second } => exists|
                        k1: int,
                        o1: int,
                        k2: int,
                        o2: int,
                    |
                        k1 < k2 && #[trigger] claim_eq(nodes_spec@, k1, o1, k2, o2)
                            && first_conflict(nodes_spec@, k2, o2) && addr@ == ops_dv(
                            nodes_spec@[k2],
                        )[o2] && first@ == nodes_spec@[k1].name@ && second@ == nodes_spec@[
                            k2
                        ].name@,
                }
            },
        },
{
    let ghost rows = log.rows();
    if let Some(e) = find_conflict(nodes_spec) {
        return Err(e);
    }
    // normalized parent lists, one per node
    let mut norm: Vec<Vec<Vec<u8>>> = Vec::new();
    let mut k: usize = 0;
    while k < nodes_spec.len()
        invariant
            k <= nodes_spec@.len(),
            nodes_named_sorted(nodes_spec@),
            norm@.len() == k,
            forall|m: int|
                0 <= m < k ==> parents_norm_ok(
                    nodes_spec@,
                    nodes_spec@[m].name@,
                    (#[trigger] norm@[m]).deep_view(),
                ),
            forall|m: int|
                0 <= m < k ==> ((#[trigger] norm@[m]).deep_view().len() > 0 <==> has_parent(
                    nodes_spec@,
                    nodes_spec@[m].name@,
                )),
        decreases nodes_spec@.len() - k,
    {
        let np = normalized_parents_of(nodes_spec, &nodes_spec[k].name);
        norm.push(np);
        k += 1;
    }
    // per-node views with aggregation
    let mut views: Vec<NameNodeView> = Vec::new();
    let mut warns: Vec<UnmappedWarning> = Vec::new();
    let mut tot_act: u64 = 0;
    let mut tot_us: u64 = 0;
    let mut cnt: usize = 0;
    proof {
        assert(nodes_spec@.take(0) =~= Seq::<NamedNode>::empty());
        assert(warns@.map_values(|w: UnmappedWarning| (w.name@, w.addr@)) =~= all_warn_pairs(
            nodes_spec@.take(0),
            rows,
        ));
        assert(claimed_before(nodes_spec@, 0, 0) =~= Set::<Seq<u32>>::empty()) by {
            assert forall|a: Seq<u32>| !claimed_before(nodes_spec@, 0, 0).contains(a) by {
                if claimed_before(nodes_spec@, 0, 0).contains(a) {
                    let (k1, o1) = choose|k1: int, o1: int|
                        0 <= k1 < nodes_spec@.len() && 0 <= o1 < ops_dv(nodes_spec@[k1]).len()
                            && (k1 < 0 || (k1 == 0 && o1 < 0)) && #[trigger] ops_dv(
                            nodes_spec@[k1],
                        )[o1] == a;
                }
            }
        }
        assert forall|a: Seq<u32>| !claimed_before(nodes_spec@, 0, 0).contains(a) by {}
        lemma_sum_if_empty(rows, claimed_before(nodes_spec@, 0, 0), f_act());
        lemma_sum_if_empty(rows, claimed_before(nodes_spec@, 0, 0), f_us());
        lemma_sum_if_empty(rows, claimed_before(nodes_spec@, 0, 0), f_one());
    }
    let mut k2: usize = 0;
    while k2 < nodes_spec.len()
        invariant
            k2 <= nodes_spec@.len(),
            nodes_named_sorted(nodes_spec@),
            log.wf(),
            rows == log.rows(),
            !addr_conflict(nodes_spec@),
            forall|kk: int|
                0 <= kk < nodes_spec@.len() ==> addr_set_ordered(
                    ops_dv(#[trigger] nodes_spec@[kk]),
                ),
            rows_sum(rows, f_act()) <= u64::MAX,
            rows_sum(rows, f_us()) <= u64::MAX,
            norm@.len() == nodes_spec@.len(),
            forall|m: int|
                0 <= m < nodes_spec@.len() ==> parents_norm_ok(
                    nodes_spec@,
                    nodes_spec@[m].name@,
                    (#[trigger] norm@[m]).deep_view(),
                ),
            views@.len() == k2,
            forall|m: int|
                0 <= m < k2 ==> view_matches_node(nodes_spec@, rows, m, #[trigger] views@[m]),
            tot_act == nodes_ops_sum(nodes_spec@.take(k2 as int), rows, f_act()),
            tot_us == nodes_ops_sum(nodes_spec@.take(k2 as int), rows, f_us()),
            cnt == nodes_ops_sum(nodes_spec@.take(k2 as int), rows, f_one()),
            tot_act == rows_sum_if(rows, claimed_before(nodes_spec@, k2 as int, 0), f_act()),
            tot_us == rows_sum_if(rows, claimed_before(nodes_spec@, k2 as int, 0), f_us()),
            cnt == rows_sum_if(rows, claimed_before(nodes_spec@, k2 as int, 0), f_one()),
            warns@.map_values(|w: UnmappedWarning| (w.name@, w.addr@)) == all_warn_pairs(
                nodes_spec@.take(k2 as int),
                rows,
            ),
        decreases nodes_spec@.len() - k2,
    {
        let dag_parents = copy_names(&norm[k2]);
        let extra_parents = if norm[k2].len() > 0 {
            copy_tail(&norm[k2])
        } else {
            Vec::new()
        };
        let children = tree_children_for(nodes_spec, &norm, &nodes_spec[k2].name);
        let (operators, self_act, self_us) = aggregate_node(
            nodes_spec,
            k2,
            log,
            &mut tot_act,
            &mut tot_us,
            &mut cnt,
            &mut warns,
        );
        let v = NameNodeView {
            name: copy_name(&nodes_spec[k2].name),
            label: nodes_spec[k2].label.clone(),
            children,
            dag_parents,
            extra_parents,
            self_activations: self_act,
            self_total_active_us: self_us,
            operators,
        };
        proof {
            assert(v.dag_parents@.len() == v.dag_parents.deep_view().len());
            assert(v.extra_parents@.len() == v.extra_parents.deep_view().len());
            if norm@[k2 as int].deep_view().len() == 0 {
                assert(v.extra_parents.deep_view() =~= Seq::<Seq<u8>>::empty());
            }
            assert(view_matches_node(nodes_spec@, rows, k2 as int, v));
        }
        views.push(v);
        k2 += 1;
    }
    proof {
        assert(nodes_spec@.take(nodes_spec@.len() as int) =~= nodes_spec@);
    }
    // root set: the supplied roots plus every node without a parent
    let mut rvec: Vec<Vec<u8>> = copy_names(roots);
    let mut k3: usize = 0;
    proof {
        assert forall|q: Seq<u8>| #[trigger] rvec.deep_view().to_set().contains(q) implies (
            roots.deep_view().to_set().contains(q) || (exists|m: int|
                0 <= m < 0 && (#[trigger] nodes_spec@[m]).name@ == q && !has_parent(
                    nodes_spec@,
                    q,
                ))) by {}
    }
    while k3 < nodes_spec.len()
        invariant
            k3 <= nodes_spec@.len(),
            nodes_named_sorted(nodes_spec@),
            norm@.len() == nodes_spec@.len(),
            forall|m: int|
                0 <= m < nodes_spec@.len() ==> parents_norm_ok(
                    nodes_spec@,
                    nodes_spec@[m].name@,
                    (#[trigger] norm@[m]).deep_view(),
                ),
            forall|q: Seq<u8>|
                #[trigger] rvec.deep_view().to_set().contains(q) <==> (roots.deep_view()
                    .to_set().contains(q) || (exists|m: int|
                    0 <= m < k3 && (#[trigger] nodes_spec@[m]).name@ == q && !has_parent(
                        nodes_spec@,
                        q,
                    ))),
        decreases nodes_spec@.len() - k3,
    {
        let ghost pre = rvec.deep_view();
        let mut pushed: bool = false;
        if norm[k3].len() == 0 {
            let nm = copy_name(&nodes_spec[k3].name);
            rvec.push(nm);
            pushed = true;
            proof {
                assert(nm.deep_view() =~= nm@);
                assert(rvec.deep_view() =~= pre.push(nodes_spec@[k3 as int].name@));
                // an empty normalized parent list means no parent
                let dv = norm@[k3 as int].deep_view();
                if has_parent(nodes_spec@, nodes_spec@[k3 as int].name@) {
                    let p = choose|p: int|
                        0 <= p < nodes_spec@.len() && #[trigger] is_parent_of(
                            nodes_spec@,
                            p,
                            nodes_spec@[k3 as int].name@,
                        );
                    assert(parent_set(nodes_spec@, nodes_spec@[k3 as int].name@).contains(
                        nodes_spec@[p].name@,
                    ));
                    assert(dv.to_set().contains(nodes_spec@[p].name@));
                    let mm = choose|mm: int|
                        0 <= mm < dv.len() && dv[mm] == nodes_spec@[p].name@;
                    assert(false);
                }
            }
        } else {
            proof {
                // a nonempty normalized parent list means some parent exists
                let dv = norm@[k3 as int].deep_view();
                assert(dv.to_set().contains(dv[0]));
                let p = choose|p: int|
                    0 <= p < nodes_spec@.len() && (#[trigger] nodes_spec@[p]).name@ == dv[0]
                        && is_parent_of(nodes_spec@, p, nodes_spec@[k3 as int].name@);
                assert(has_parent(nodes_spec@, nodes_spec@[k3 as int].name@));
            }
        }
        k3 += 1;
        proof {
            assert forall|q: Seq<u8>| #[trigger] rvec.deep_view().to_set().contains(q) implies (
                roots.deep_view().to_set().contains(q) || (exists|m: int|
                    0 <= m < k3 && (#[trigger] nodes_spec@[m]).name@ == q && !has_parent(
                        nodes_spec@,
                        q,
                    ))) by {
                if pushed {
                    let mm = choose|mm: int|
                        0 <= mm < rvec.deep_view().len() && rvec.deep_view()[mm] == q;
                    if mm < pre.len() {
                        assert(pre.to_set().contains(q));
                    } else {
                        assert(q == nodes_spec@[k3 as int - 1].name@);
                        assert(!has_parent(nodes_spec@, q));
                    }
                } else {
                    assert(pre.to_set().contains(q));
                }
            }
            assert forall|q: Seq<u8>| (roots.deep_view().to_set().contains(q) || (exists|m: int|
                0 <= m < k3 && (#[trigger] nodes_spec@[m]).name@ == q && !has_parent(
                    nodes_spec@,
                    q,
                ))) implies #[trigger] rvec.deep_view().to_set().contains(q) by {
                if roots.deep_view().to_set().contains(q) {
                    assert(pre.to_set().contains(q));
                    let mm = choose|mm: int| 0 <= mm < pre.len() && pre[mm] == q;
                    assert(rvec.deep_view()[mm] == q);
                } else {
                    let m = choose|m: int|
                        0 <= m < k3 && (#[trigger] nodes_spec@[m]).name@ == q && !has_parent(
                            nodes_spec@,
                            q,
                        );
                    if m < k3 - 1 {
                        assert(pre.to_set().contains(q));
                        let mm = choose|mm: int| 0 <= mm < pre.len() && pre[mm] == q;
                        assert(rvec.deep_view()[mm] == q);
                    } else {
                        assert(pushed);
                        assert(rvec.deep_view()[rvec.deep_view().len() - 1] == q);
                    }
                }
            }
        }
    }
    let roots_final = normalize_parents(rvec);
    // rule sub-DAG views
    let rule_views = build_rule_views(rules_spec, nodes_spec, fingerprint_to_node);
    let names_count = nodes_spec.len();
    let ops_in_log = log.len();
    let totals = TotalsView {
        names: names_count,
        operators_in_log: ops_in_log,
        operators_mapped: cnt,
        total_mapped_us: tot_us,
        total_mapped_activations: tot_act,
    };
    let rep = ReportData { roots: roots_final, nodes: views, rules: rule_views, totals };
    proof {
        assert(roots_ok(nodes_spec@, roots.deep_view(), rep.roots.deep_view()));
        assert(report_matches(nodes_spec@, roots.deep_view(), rows, rep));
    }
    Ok((rep, warns))
}

// ---------------------------------------------------------------------------
// Laws of the resolved hierarchy.
// ---------------------------------------------------------------------------

/// Primary-parent determinism: whatever order parents were declared in, the
/// primary parent of a node is uniquely determined (the lexicographically
/// least declared parent), and so is the whole normalized parent list.
pub proof fn lemma_primary_parent_determinism(
    nodes: Seq<NamedNode>,
    c: Seq<u8>,
    q1: Seq<u8>,
    q2: Seq<u8>,
)
    requires
        is_primary_parent(nodes, c, q1),
        is_primary_parent(nodes, c, q2),
    ensures
        q1 == q2,
{
    assert(name_le(q1, q2));
    assert(name_le(q2, q1));
    crate::order::lemma_name_le_antisym(q1, q2);
}

/// Normalization is order-independent: any two normalized parent lists of
/// the same node are identical, whatever order the raw edges were walked in.
pub proof fn lemma_normalized_parents_unique(
    nodes: Seq<NamedNode>,
    c: Seq<u8>,
    a: Seq<Seq<u8>>,
    b: Seq<Seq<u8>>,
)
    requires
        parents_norm_ok(nodes, c, a),
        parents_norm_ok(nodes, c, b),
    ensures
        a == b,
{
    crate::order::lemma_name_le_total_ordering();
    crate::order::lemma_sorted_nodup_unique(a, b, name_leq());
}

/// Tree coverage: in a resolved report whose supplied roots are themselves
/// parentless nodes, every node with a parent appears in exactly one node's
/// tree-children list, every parentless node is a root, and no node is both.
pub proof fn lemma_tree_coverage(
    nodes: Seq<NamedNode>,
    roots_in: Seq<Seq<u8>>,
    rows: Seq<LogRow>,
    rep: ReportData,
    k: int,
)
    requires
        nodes_named_sorted(nodes),
        report_matches(nodes, roots_in, rows, rep),
        forall|q: Seq<u8>|
            #[trigger] roots_in.to_set().contains(q) ==> names_contain(nodes, q) && !has_parent(
                nodes,
                q,
            ),
        0 <= k < nodes.len(),
    ensures
        has_parent(nodes, nodes[k].name@) ==> exists|j: int|
            0 <= j < nodes.len() && (#[trigger] rep.nodes@[j]).children.deep_view()
                .to_set().contains(nodes[k].name@) && forall|j2: int|
                0 <= j2 < nodes.len() && (#[trigger] rep.nodes@[j2]).children.deep_view()
                    .to_set().contains(nodes[k].name@) ==> j2 == j,
        has_parent(nodes, nodes[k].name@) ==> !rep.roots.deep_view().to_set().contains(
            nodes[k].name@,
        ),
        !has_parent(nodes, nodes[k].name@) ==> rep.roots.deep_view().to_set().contains(
            nodes[k].name@,
        ) && forall|j2: int|
            0 <= j2 < nodes.len() ==> !(#[trigger] rep.nodes@[j2]).children.deep_view()
                .to_set().contains(nodes[k].name@),
{
    let cn = nodes[k].name@;
    let names = names_of(nodes);
    if has_parent(nodes, cn) {
        // the node's own dag_parents list materializes its parent set;
        // its head is the primary parent
        let v = rep.nodes@[k];
        assert(view_matches_node(nodes, rows, k, v));
        let dv = v.dag_parents.deep_view();
        assert(dv.to_set() == parent_set(nodes, cn));
        let p = choose|p: int| 0 <= p < nodes.len() && #[trigger] is_parent_of(nodes, p, cn);
        assert(parent_set(nodes, cn).contains(nodes[p].name@));
        assert(dv.to_set().contains(nodes[p].name@));
        let mw = choose|mw: int| 0 <= mw < dv.len() && dv[mw] == nodes[p].name@;
        assert(dv.len() > 0);
        assert(dv.to_set().contains(dv[0]));
        assert forall|q2: Seq<u8>| #[trigger] parent_set(nodes, cn).contains(q2) implies name_le(
            dv[0],
            q2,
        ) by {
            assert(dv.to_set().contains(q2));
            let m2 = choose|m2: int| 0 <= m2 < dv.len() && dv[m2] == q2;
            if m2 == 0 {
                crate::order::lemma_name_le_refl(dv[0]);
            } else {
                let leq = name_leq();
                assert(leq(dv[0], dv[m2]));
            }
        }
        assert(is_primary_parent(nodes, cn, dv[0]));
        // the primary parent is a node; that node's children contain cn
        let pj = choose|pj: int|
            0 <= pj < nodes.len() && (#[trigger] nodes[pj]).name@ == dv[0] && is_parent_of(
                nodes,
                pj,
                cn,
            );
        let vj = rep.nodes@[pj];
        assert(view_matches_node(nodes, rows, pj, vj));
        assert(vj.children.deep_view().to_set().contains(cn)) by {
            assert(nodes[k].name@ == cn && is_primary_parent(nodes, cn, nodes[pj].name@));
        }
        assert forall|j2: int|
            0 <= j2 < nodes.len() && (#[trigger] rep.nodes@[j2]).children.deep_view()
                .to_set().contains(cn) implies j2 == pj by {
            let vj2 = rep.nodes@[j2];
            assert(view_matches_node(nodes, rows, j2, vj2));
            let c2 = choose|c2: int|
                0 <= c2 < nodes.len() && (#[trigger] nodes[c2]).name@ == cn && is_primary_parent(
                    nodes,
                    cn,
                    nodes[j2].name@,
                );
            lemma_primary_parent_determinism(nodes, cn, nodes[j2].name@, nodes[pj].name@);
            assert(names[j2] == names[pj]);
            if j2 != pj {
                assert(names[j2] != names[pj]);
            }
        }
        // a node with a parent is not a root
        assert(roots_ok(nodes, roots_in, rep.roots.deep_view()));
        if rep.roots.deep_view().to_set().contains(cn) {
            if roots_in.to_set().contains(cn) {
                assert(!has_parent(nodes, cn));
            } else {
                let m3 = choose|m3: int|
                    0 <= m3 < nodes.len() && (#[trigger] nodes[m3]).name@ == cn && !has_parent(
                        nodes,
                        cn,
                    );
            }
            assert(false);
        }
    } else {
        // a parentless node is a root and in nobody's children
        assert(roots_ok(nodes, roots_in, rep.roots.deep_view()));
        assert(rep.roots.deep_view().to_set().contains(cn)) by {
            assert(nodes[k].name@ == cn && !has_parent(nodes, cn));
        }
        assert forall|j2: int| 0 <= j2 < nodes.len() implies !(#[trigger] rep.nodes@[
            j2
        ]).children.deep_view().to_set().contains(cn) by {
            let vj2 = rep.nodes@[j2];
            assert(view_matches_node(nodes, rows, j2, vj2));
            if vj2.children.deep_view().to_set().contains(cn) {
                let c2 = choose|c2: int|
                    0 <= c2 < nodes.len() && (#[trigger] nodes[c2]).name@ == cn
                        && is_primary_parent(nodes, cn, nodes[j2].name@);
                assert(parent_set(nodes, cn).contains(nodes[j2].name@));
                let pp = choose|pp: int|
                    0 <= pp < nodes.len() && (#[trigger] nodes[pp]).name@ == nodes[j2].name@
                        && is_parent_of(nodes, pp, cn);
                assert(has_parent(nodes, cn));
            }
        }
    }
}

/// Whether two operator views read the same.
pub open spec fn op_view_eq(a: OperatorView, b: OperatorView) -> bool {
    &&& a.addr@ == b.addr@
    &&& a.op_name@ == b.op_name@
    &&& a.activations == b.activations
    &&& a.total_active_us == b.total_active_us
}

/// Whether two node views read the same.
pub open spec fn node_view_eq(a: NameNodeView, b: NameNodeView) -> bool {
    &&& a.name@ == b.name@
    &&& a.label@ == b.label@
    &&& a.children.deep_view() == b.children.deep_view()
    &&& a.dag_parents.deep_view() == b.dag_parents.deep_view()
    &&& a.extra_parents.deep_view() == b.extra_parents.deep_view()
    &&& a.self_activations == b.self_activations
    &&& a.self_total_active_us == b.self_total_active_us
    &&& a.operators@.len() == b.operators@.len()
    &&& forall|m: int|
        0 <= m < a.operators@.len() ==> op_view_eq(
            #[trigger] a.operators@[m],
            #[trigger] b.operators@[m],
        )
}

/// Whether two reports read the same, rules aside.
pub open spec fn report_view_eq(a: ReportData, b: ReportData) -> bool {
    &&& a.roots.deep_view() == b.roots.deep_view()
    &&& a.nodes@.len() == b.nodes@.len()
    &&& forall|k: int|
        0 <= k < a.nodes@.len() ==> node_view_eq(#[trigger] a.nodes@[k], #[trigger] b.nodes@[k])
    &&& a.totals == b.totals
}

/// Idempotence: the report is a pure function of its inputs. Any two
/// reports built from the same nodes, roots and log read identically, so a
/// second run over identical input reproduces the first byte for byte.
pub proof fn lemma_report_deterministic(
    nodes: Seq<NamedNode>,
    roots_in: Seq<Seq<u8>>,
    rows: Seq<LogRow>,
    r1: ReportData,
    r2: ReportData,
)
    requires
        nodes_named_sorted(nodes),
        report_matches(nodes, roots_in, rows, r1),
        report_matches(nodes, roots_in, rows, r2),
    ensures
        report_view_eq(r1, r2),
{
    crate::order::lemma_name_le_total_ordering();
    // roots agree: both are sorted, duplicate-free and hold the same set
    assert(r1.roots.deep_view().to_set() =~= r2.roots.deep_view().to_set()) by {
        assert forall|q: Seq<u8>|
            r1.roots.deep_view().to_set().contains(q) <==> r2.roots.deep_view()
                .to_set().contains(q) by {}
    }
    crate::order::lemma_sorted_nodup_unique(
        r1.roots.deep_view(),
        r2.roots.deep_view(),
        name_leq(),
    );
    assert forall|k: int| 0 <= k < r1.nodes@.len() implies node_view_eq(
        #[trigger] r1.nodes@[k],
        #[trigger] r2.nodes@[k],
    ) by {
        let a = r1.nodes@[k];
        let b = r2.nodes@[k];
        assert(view_matches_node(nodes, rows, k, a));
        assert(view_matches_node(nodes, rows, k, b));
        assert(a.dag_parents.deep_view().to_set() =~= b.dag_parents.deep_view().to_set());
        crate::order::lemma_sorted_nodup_unique(
            a.dag_parents.deep_view(),
            b.dag_parents.deep_view(),
            name_leq(),
        );
        assert(a.children.deep_view().to_set() =~= b.children.deep_view().to_set()) by {
            assert forall|q: Seq<u8>|
                a.children.deep_view().to_set().contains(q) <==> b.children.deep_view()
                    .to_set().contains(q) by {}
        }
        crate::order::lemma_sorted_nodup_unique(
            a.children.deep_view(),
            b.children.deep_view(),
            name_leq(),
        );
        assert(a.dag_parents@.len() == a.dag_parents.deep_view().len());
        assert(b.dag_parents@.len() == b.dag_parents.deep_view().len());
        if a.dag_parents@.len() == 0 {
            assert(a.extra_parents@.len() == 0 && b.extra_parents@.len() == 0);
            assert(a.extra_parents.deep_view() =~= b.extra_parents.deep_view());
        } else {
            assert(a.extra_parents.deep_view() == a.dag_parents.deep_view().drop_first());
            assert(b.extra_parents.deep_view() == b.dag_parents.deep_view().drop_first());
        }
        let fa = |ov: OperatorView| ov.addr@;
        assert(a.operators@.map_values(fa).len() == b.operators@.map_values(fa).len());
        assert forall|m: int| 0 <= m < a.operators@.len() implies op_view_eq(
            #[trigger] a.operators@[m],
            #[trigger] b.operators@[m],
        ) by {
            assert(a.operators@.map_values(fa)[m] == b.operators@.map_values(fa)[m]);
            assert(a.operators@[m].addr@ == b.operators@[m].addr@);
            assert(op_view_matches(rows, a.operators@[m]));
            assert(op_view_matches(rows, b.operators@[m]));
        }
    }
    assert(r1.totals == r2.totals);
}

} // verus!
