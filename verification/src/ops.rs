//! Topology specification: named buckets of raw node records, flattened
//! into a single id-keyed node collection with derived roots.
//!
//! The specification provides several buckets (input / strata[*].enter |
//! rules[*].stages | runtime | leave / inspect). All node entries are
//! flattened into one id-sorted collection; roots are the ids that no
//! child edge points at.

use vstd::prelude::*;

verus! {

use crate::addr::{Addr, addr_set_ordered};

/// Operator references as they appear in a raw node record.
pub enum OperatorRefSpec {
    Explicit { addr: Vec<u32> },
}

/// Raw node shape as it appears in the specification's buckets.
pub struct RawNode {
    pub id: u32,
    pub label: String,
    pub operators: Vec<OperatorRefSpec>,
    pub children: Vec<u32>,
}

/// One declared rule: display text plus its staged node records.
pub struct Rule {
    pub rule: String,
    pub stages: Vec<RawNode>,
}

/// One stratum bucket group.
pub struct Stratum {
    pub label: String,
    pub enter: Vec<RawNode>,
    pub rules: Vec<Rule>,
    pub runtime: Vec<RawNode>,
    pub leave: Vec<RawNode>,
}

/// The whole topology specification.
pub struct OpsSpec {
    pub input: Vec<RawNode>,
    pub strata: Vec<Stratum>,
    pub inspect: Vec<RawNode>,
}

/// Flattened, validated node ready for aggregation: operators are held as
/// a strictly ordered address set.
pub struct NodeSpec {
    pub id: u32,
    pub label: String,
    pub children: Vec<u32>,
    pub operators: Vec<Addr>,
}

/// The validated topology: nodes sorted by id, plus the derived root ids.
pub struct ValidatedOps {
    pub nodes: Vec<NodeSpec>,
    pub roots: Vec<u32>,
}

/// Why a topology specification was rejected.
#[derive(Debug)]
pub enum OpsError {
    /// Two records share an id.
    DuplicateId { id: u32 },
    /// The specification contained no node records at all.
    EmptySpec,
    /// A record's child id has no corresponding record.
    DanglingChild { node: u32, child: u32 },
}

/// The address declared by an operator reference.
pub open spec fn op_addr(o: OperatorRefSpec) -> Seq<u32> {
    match o {
        OperatorRefSpec::Explicit { addr } => addr@,
    }
}

/// The set of addresses declared by a raw record's operator references.
pub open spec fn raw_ops_addrs(ops: Seq<OperatorRefSpec>) -> Set<Seq<u32>> {
    ops.map_values(|o: OperatorRefSpec| op_addr(o)).to_set()
}

/// All records contributed by a sequence of rules, in declaration order.
pub open spec fn rule_nodes(rs: Seq<Rule>) -> Seq<RawNode>
    decreases rs.len(),
{
    if rs.len() == 0 {
        Seq::empty()
    } else {
        rule_nodes(rs.drop_last()) + rs.last().stages@
    }
}

/// All records contributed by one stratum, in declaration order.
pub open spec fn stratum_nodes(s: Stratum) -> Seq<RawNode> {
    s.enter@ + rule_nodes(s.rules@) + s.runtime@ + s.leave@
}

/// All records contributed by a sequence of strata.
pub open spec fn strata_nodes(ss: Seq<Stratum>) -> Seq<RawNode>
    decreases ss.len(),
{
    if ss.len() == 0 {
        Seq::empty()
    } else {
        strata_nodes(ss.drop_last()) + stratum_nodes(ss.last())
    }
}

/// Every record of the specification, in bucket declaration order.
pub open spec fn flat_nodes(o: OpsSpec) -> Seq<RawNode> {
    o.input@ + strata_nodes(o.strata@) + o.inspect@
}

/// Record `j` repeats an id that occurred strictly earlier.
pub open spec fn dup_at(s: Seq<RawNode>, j: int) -> bool {
    exists|i: int| 0 <= i < j && (#[trigger] s[i]).id == s[j].id
}

/// Some record repeats an earlier record's id.
pub open spec fn has_dup(s: Seq<RawNode>) -> bool {
    exists|j: int| 0 <= j < s.len() && #[trigger] dup_at(s, j)
}

/// Record `j` is the first one that repeats an earlier id.
pub open spec fn first_dup(s: Seq<RawNode>, j: int) -> bool {
    &&& 0 <= j < s.len()
    &&& dup_at(s, j)
    &&& forall|j2: int| 0 <= j2 < j ==> !#[trigger] dup_at(s, j2)
}

/// Some record carries this id.
pub open spec fn flat_has_id(s: Seq<RawNode>, id: u32) -> bool {
    exists|i: int| 0 <= i < s.len() && (#[trigger] s[i]).id == id
}

/// The index of a record carrying this id.
pub open spec fn raw_index_of(s: Seq<RawNode>, id: u32) -> int {
    choose|i: int| 0 <= i < s.len() && (#[trigger] s[i]).id == id
}

/// Every declared child id has a corresponding record.
pub open spec fn no_dangling(s: Seq<RawNode>) -> bool {
    forall|i: int, ci: int|
        0 <= i < s.len() && 0 <= ci < s[i].children@.len() ==> flat_has_id(
            s,
            #[trigger] s[i].children@[ci],
        )
}

/// A validated node faithfully reflects one raw record.
pub open spec fn node_matches_raw(n: NodeSpec, r: RawNode) -> bool {
    &&& n.id == r.id
    &&& n.label@ == r.label@
    &&& n.children@ == r.children@
    &&& addr_set_ordered(n.operators.deep_view())
    &&& n.operators.deep_view().to_set() == raw_ops_addrs(r.operators@)
}

/// Ids strictly increase along the node list.
pub open spec fn nodes_sorted_by_id(ns: Seq<NodeSpec>) -> bool {
    forall|p: int, q: int| 0 <= p < q < ns.len() ==> (#[trigger] ns[p]).id < (#[trigger] ns[q]).id
}

/// Some validated node carries this id.
pub open spec fn node_ids_contain(ns: Seq<NodeSpec>, id: u32) -> bool {
    exists|k: int| 0 <= k < ns.len() && (#[trigger] ns[k]).id == id
}

/// Some validated node declares this id as a child.
pub open spec fn id_has_parent(ns: Seq<NodeSpec>, id: u32) -> bool {
    exists|m: int, ci: int|
        0 <= m < ns.len() && 0 <= ci < ns[m].children@.len() && #[trigger] ns[m].children@[ci]
            == id
}

/// Values strictly increase along a u32 list.
pub open spec fn u32s_sorted(s: Seq<u32>) -> bool {
    forall|p: int, q: int| 0 <= p < q < s.len() ==> s[p] < s[q]
}

/// What the validated topology promises about its input.
pub open spec fn validated_matches(o: OpsSpec, v: ValidatedOps) -> bool {
    let s = flat_nodes(o);
    &&& nodes_sorted_by_id(v.nodes@)
    &&& forall|k: int|
        0 <= k < v.nodes@.len() ==> flat_has_id(s, (#[trigger] v.nodes@[k]).id)
            && node_matches_raw(v.nodes@[k], s[raw_index_of(s, v.nodes@[k].id)])
    &&& forall|i: int| 0 <= i < s.len() ==> node_ids_contain(v.nodes@, (#[trigger] s[i]).id)
    &&& u32s_sorted(v.roots@)
    &&& forall|id: u32|
        v.roots@.contains(id) <==> (node_ids_contain(v.nodes@, id) && !id_has_parent(
            v.nodes@,
            id,
        ))
}


/// The sequence of records referenced by a reference vector.
pub open spec fn derefs(s: Seq<&RawNode>) -> Seq<RawNode> {
    s.map_values(|r: &RawNode| *r)
}

/// Node `k` reflects one of the first `j` records of `s`.
pub open spec fn node_backed(ns: Seq<NodeSpec>, s: Seq<RawNode>, k: int, j: int) -> bool {
    exists|i: int|
        0 <= i < j && (#[trigger] s[i]).id == ns[k].id && node_matches_raw(ns[k], s[i])
}

/// The validated node list reflects exactly the records of `s`.
pub open spec fn nodes_model(ns: Seq<NodeSpec>, s: Seq<RawNode>) -> bool {
    &&& nodes_sorted_by_id(ns)
    &&& forall|k: int| 0 <= k < ns.len() ==> #[trigger] node_backed(ns, s, k, s.len() as int)
    &&& forall|i: int| 0 <= i < s.len() ==> node_ids_contain(ns, (#[trigger] s[i]).id)
}

/// No record of `s` repeats an earlier id.
pub open spec fn nodup_all(s: Seq<RawNode>) -> bool {
    forall|j: int| 0 <= j < s.len() ==> !#[trigger] dup_at(s, j)
}

/// Finds the position of an id in an id-sorted node list.
fn find_node_idx(nodes: &Vec<NodeSpec>, id: u32) -> (r: Option<usize>)
    ensures
        match r {
            Some(i) => i < nodes@.len() && nodes@[i as int].id == id,
            None => !node_ids_contain(nodes@, id),
        },
{
    let mut i: usize = 0;
    while i < nodes.len()
        invariant
            i <= nodes.len(),
            forall|j: int| 0 <= j < i ==> (#[trigger] nodes@[j]).id != id,
        decreases nodes.len() - i,
    {
        if nodes[i].id == id {
            return Some(i);
        }
        i += 1;
    }
    None
}

/// Copies a u32 vector.
fn copy_u32s(x: &Vec<u32>) -> (r: Vec<u32>)
    ensures
        r@ == x@,
{
    let mut r: Vec<u32> = Vec::new();
    let mut i: usize = 0;
    while i < x.len()
        invariant
            i <= x.len(),
            r@ == x@.subrange(0, i as int),
        decreases x.len() - i,
    {
        let c = x[i];
        r.push(c);
        i += 1;
        proof {
            assert(r@ =~= x@.subrange(0, i as int));
        }
    }
    proof {
        assert(r@ =~= x@);
    }
    r
}

/// Builds the validated node for one raw record.
fn make_node(r: &RawNode) -> (n: NodeSpec)
    ensures
        node_matches_raw(n, *r),
{
    let mut operators: Vec<Addr> = Vec::new();
    let mut k: usize = 0;
    let ghost f = |o: OperatorRefSpec| op_addr(o);
    proof {
        assert(operators.deep_view() =~= Seq::<Seq<u32>>::empty());
        assert(r.operators@.take(0).map_values(f) =~= Seq::<Seq<u32>>::empty());
        assert(operators.deep_view().to_set() =~= r.operators@.take(0).map_values(f).to_set());
    }
    while k < r.operators.len()
        invariant
            k <= r.operators.len(),
            addr_set_ordered(operators.deep_view()),
            operators.deep_view().to_set() == r.operators@.take(k as int).map_values(f).to_set(),
            f == (|o: OperatorRefSpec| op_addr(o)),
        decreases r.operators.len() - k,
    {
        let ghost pre = operators.deep_view();
        let addr_vec = match &r.operators[k] {
            OperatorRefSpec::Explicit { addr } => copy_u32s(addr),
        };
        let a = Addr::new(addr_vec);
        proof {
            assert(a@ == op_addr(r.operators@[k as int]));
        }
        crate::addr::insert_addr_set(&mut operators, a);
        proof {
            let t1 = r.operators@.take(k as int).map_values(f);
            let t2 = r.operators@.take(k as int + 1).map_values(f);
            assert(r.operators@.take(k as int + 1) =~= r.operators@.take(k as int).push(
                r.operators@[k as int],
            ));
            assert(t2 =~= t1.push(op_addr(r.operators@[k as int])));
            assert forall|e: Seq<u32>| t2.to_set().contains(e) implies pre.to_set().insert(
                a@,
            ).contains(e) by {
                let m = choose|m: int| 0 <= m < t2.len() && t2[m] == e;
                if m < t1.len() {
                    assert(t1[m] == e);
                    assert(t1.to_set().contains(e));
                }
            }
            assert forall|e: Seq<u32>| pre.to_set().insert(a@).contains(e) implies t2
                .to_set().contains(e) by {
                if e == a@ {
                    assert(t2[t2.len() - 1] == e);
                } else {
                    assert(t1.to_set().contains(e));
                    let m = choose|m: int| 0 <= m < t1.len() && t1[m] == e;
                    assert(t2[m] == e);
                }
            }
            assert(operators.deep_view().to_set() =~= t2.to_set());
        }
        k += 1;
    }
    proof {
        assert(r.operators@.take(r.operators@.len() as int) =~= r.operators@);
    }
    let n = NodeSpec { id: r.id, label: r.label.clone(), children: copy_u32s(&r.children), operators };
    n
}

/// Inserts a node into an id-sorted list; the id must not be present.
fn insert_node_sorted(nodes: &mut Vec<NodeSpec>, n: NodeSpec)
    requires
        nodes_sorted_by_id(old(nodes)@),
        !node_ids_contain(old(nodes)@, n.id),
    ensures
        nodes_sorted_by_id(final(nodes)@),
        exists|p: int|
            0 <= p <= old(nodes)@.len() && final(nodes)@ == #[trigger] old(nodes)@.insert(p, n),
{
    let ghost orig = *nodes;
    let mut j: usize = 0;
    loop
        invariant
            j <= nodes.len(),
            *nodes == orig,
            nodes_sorted_by_id(orig@),
            !node_ids_contain(orig@, n.id),
            forall|k: int| 0 <= k < j ==> (#[trigger] orig@[k]).id < n.id,
        ensures
            j <= nodes.len(),
            *nodes == orig,
            forall|k: int| 0 <= k < j ==> (#[trigger] orig@[k]).id < n.id,
            j < nodes.len() ==> orig@[j as int].id > n.id,
        decreases nodes.len() - j,
    {
        if j >= nodes.len() {
            break;
        }
        if nodes[j].id >= n.id {
            proof {
                if orig@[j as int].id == n.id {
                    assert(node_ids_contain(orig@, n.id));
                }
            }
            break;
        }
        j += 1;
    }
    nodes.insert(j, n);
    proof {
        orig@.insert_ensures(j as int, n);
        assert(nodes@ =~= orig@.insert(j as int, n));
        assert forall|p: int, q: int| 0 <= p < q < nodes@.len() implies (#[trigger] nodes@[p]).id
            < (#[trigger] nodes@[q]).id by {
            if q < j {
            } else if p < j && q == j {
            } else if p < j && q > j {
                if q - 1 > p {
                    assert(orig@[p].id < orig@[q - 1].id);
                }
                assert(orig@[q - 1].id > n.id || orig@[q - 1].id == orig@[j as int].id);
            } else if p == j {
                assert(orig@[j as int].id < orig@[q - 1].id || q - 1 == j);
            } else {
            }
        }
    }
}

impl OpsSpec {
    /// Appends references to every record of one bucket.
    fn push_all<'a>(flat: &mut Vec<&'a RawNode>, bucket: &'a Vec<RawNode>)
        ensures
            derefs(final(flat)@) == derefs(old(flat)@) + bucket@,
    {
        let ghost base = derefs(old(flat)@);
        let ghost n0 = old(flat)@.len();
        let mut i: usize = 0;
        proof {
            assert(bucket@.take(0) =~= Seq::<RawNode>::empty());
            assert(derefs(flat@) =~= base + bucket@.take(0));
        }
        while i < bucket.len()
            invariant
                i <= bucket.len(),
                flat@.len() == n0 + i,
                base == derefs(old(flat)@),
                n0 == old(flat)@.len(),
                derefs(flat@) == base + bucket@.take(i as int),
            decreases bucket.len() - i,
        {
            let ghost pre = flat@;
            flat.push(&bucket[i]);
            i += 1;
            proof {
                assert(flat@.len() == n0 + i);
                assert(*flat@[flat@.len() - 1] == bucket@[i - 1]);
                assert forall|k: int| 0 <= k < flat@.len() implies derefs(flat@)[k] == (base
                    + bucket@.take(i as int))[k] by {
                    assert(derefs(flat@)[k] == *flat@[k]);
                    if k < flat@.len() - 1 {
                        assert(flat@[k] == pre[k]);
                        assert(derefs(pre)[k] == *pre[k]);
                        assert(derefs(pre)[k] == (base + bucket@.take(i as int - 1))[k]);
                    }
                }
                assert(derefs(flat@) =~= base + bucket@.take(i as int));
            }
        }
        proof {
            assert(bucket@.take(bucket@.len() as int) =~= bucket@);
        }
    }

    /// Collects every record reference in bucket declaration order.
    fn flatten<'a>(&'a self) -> (flat: Vec<&'a RawNode>)
        ensures
            derefs(flat@) == flat_nodes(*self),
    {
        let mut flat: Vec<&'a RawNode> = Vec::new();
        proof {
            assert(derefs(flat@) =~= Seq::<RawNode>::empty());
        }
        Self::push_all(&mut flat, &self.input);
        proof {
            assert(derefs(flat@) =~= self.input@);
            assert(strata_nodes(self.strata@.take(0)) =~= Seq::<RawNode>::empty());
            assert(derefs(flat@) =~= self.input@ + strata_nodes(self.strata@.take(0)));
        }
        let mut si: usize = 0;
        while si < self.strata.len()
            invariant
                si <= self.strata.len(),
                derefs(flat@) == self.input@ + strata_nodes(self.strata@.take(si as int)),
            decreases self.strata.len() - si,
        {
            let st = &self.strata[si];
            proof {
                assert(*st == self.strata@[si as int]);
            }
            let ghost base = self.input@ + strata_nodes(self.strata@.take(si as int));
            Self::push_all(&mut flat, &st.enter);
            proof {
                assert(rule_nodes(st.rules@.take(0)) =~= Seq::<RawNode>::empty());
                assert(derefs(flat@) =~= base + st.enter@ + rule_nodes(st.rules@.take(0)));
            }
            let mut ri: usize = 0;
            while ri < st.rules.len()
                invariant
                    ri <= st.rules.len(),
                    base == self.input@ + strata_nodes(self.strata@.take(si as int)),
                    si < self.strata.len(),
                    *st == self.strata@[si as int],
                    derefs(flat@) == base + st.enter@ + rule_nodes(st.rules@.take(ri as int)),
                decreases st.rules.len() - ri,
            {
                Self::push_all(&mut flat, &st.rules[ri].stages);
                ri += 1;
                proof {
                    assert(st.rules@.take(ri as int).drop_last() =~= st.rules@.take(ri as int - 1));
                    assert(st.rules@.take(ri as int).last() == st.rules@[ri as int - 1]);
                    assert(rule_nodes(st.rules@.take(ri as int)) == rule_nodes(
                        st.rules@.take(ri as int - 1),
                    ) + st.rules@[ri as int - 1].stages@);
                    assert(derefs(flat@) =~= base + st.enter@ + rule_nodes(
                        st.rules@.take(ri as int),
                    ));
                }
            }
            proof {
                assert(st.rules@.take(st.rules@.len() as int) =~= st.rules@);
            }
            Self::push_all(&mut flat, &st.runtime);
            Self::push_all(&mut flat, &st.leave);
            si += 1;
            proof {
                assert(stratum_nodes(self.strata@[si as int - 1]) == st.enter@ + rule_nodes(
                    st.rules@,
                ) + st.runtime@ + st.leave@);
                assert(self.strata@.take(si as int).drop_last() =~= self.strata@.take(
                    si as int - 1,
                ));
                assert(self.strata@.take(si as int).last() == self.strata@[si as int - 1]);
                assert(strata_nodes(self.strata@.take(si as int)) == strata_nodes(
                    self.strata@.take(si as int - 1),
                ) + stratum_nodes(self.strata@[si as int - 1]));
                assert(derefs(flat@) =~= self.input@ + strata_nodes(self.strata@.take(si as int)));
            }
        }
        proof {
            assert(self.strata@.take(self.strata@.len() as int) =~= self.strata@);
        }
        Self::push_all(&mut flat, &self.inspect);
        proof {
            assert(derefs(flat@) =~= flat_nodes(*self));
        }
        flat
    }

    /// Flattens all buckets, rejects duplicate ids, empty specifications and
    /// dangling child references, and derives the root id set.
    pub fn validate_and_build(&self) -> (r: Result<ValidatedOps, OpsError>)
        ensures
            match r {
                Ok(v) => !has_dup(flat_nodes(*self)) && flat_nodes(*self).len() > 0 && no_dangling(
                    flat_nodes(*self),
                ) && validated_matches(*self, v),
                Err(OpsError::DuplicateId { id }) => exists|j: int|
                    #[trigger] first_dup(flat_nodes(*self), j) && id == flat_nodes(*self)[j].id,
                Err(OpsError::EmptySpec) => !has_dup(flat_nodes(*self)) && flat_nodes(
                    *self,
                ).len() == 0,
                Err(OpsError::DanglingChild { node, child }) => !has_dup(flat_nodes(*self))
                    && flat_nodes(*self).len() > 0 && !flat_has_id(flat_nodes(*self), child)
                    && exists|i: int, ci: int|
                    0 <= i < flat_nodes(*self).len() && flat_nodes(*self)[i].id == node && 0 <= ci
                        < flat_nodes(*self)[i].children@.len() && #[trigger] flat_nodes(
                        *self,
                    )[i].children@[ci] == child,
            },
    {
        let ghost s = flat_nodes(*self);
        let flat = self.flatten();
        let mut nodes: Vec<NodeSpec> = Vec::new();
        let mut j: usize = 0;
        while j < flat.len()
            invariant
                j <= flat.len(),
                s == flat_nodes(*self),
                derefs(flat@) == s,
                nodes_sorted_by_id(nodes@),
                forall|j2: int| 0 <= j2 < j ==> !#[trigger] dup_at(s, j2),
                forall|k: int| 0 <= k < nodes@.len() ==> #[trigger] node_backed(nodes@, s, k, j as int),
                forall|i: int| 0 <= i < j ==> node_ids_contain(nodes@, (#[trigger] s[i]).id),
            decreases flat.len() - j,
        {
            let raw: &RawNode = flat[j];
            proof {
                assert(derefs(flat@)[j as int] == *raw);
            }
            if let Some(_k) = find_node_idx(&nodes, raw.id) {
                proof {
                    let k = _k as int;
                    assert(node_backed(nodes@, s, k, j as int));
                    let i = choose|i: int|
                        0 <= i < j && (#[trigger] s[i]).id == nodes@[k].id && node_matches_raw(
                            nodes@[k],
                            s[i],
                        );
                    assert(s[i].id == s[j as int].id);
                    assert(dup_at(s, j as int));
                    assert(first_dup(s, j as int));
                }
                return Err(OpsError::DuplicateId { id: raw.id });
            }
            let n = make_node(raw);
            let ghost pre = nodes@;
            insert_node_sorted(&mut nodes, n);
            proof {
                let p = choose|p: int| 0 <= p <= pre.len() && nodes@ == #[trigger] pre.insert(p, n);
                pre.insert_ensures(p, n);
                // no new duplicate introduced at step j
                assert forall|j2: int| 0 <= j2 < j + 1 implies !#[trigger] dup_at(s, j2) by {
                    if j2 == j {
                        if dup_at(s, j2) {
                            let i = choose|i: int| 0 <= i < j2 && (#[trigger] s[i]).id == s[j2].id;
                            assert(node_ids_contain(pre, s[i].id));
                        }
                    }
                }
                assert forall|k: int| 0 <= k < nodes@.len() implies #[trigger] node_backed(
                    nodes@,
                    s,
                    k,
                    j + 1,
                ) by {
                    if k < p {
                        assert(nodes@[k] == pre[k]);
                        assert(node_backed(pre, s, k, j as int));
                        let i = choose|i: int|
                            0 <= i < j && (#[trigger] s[i]).id == pre[k].id && node_matches_raw(
                                pre[k],
                                s[i],
                            );
                        assert(0 <= i < j + 1 && s[i].id == nodes@[k].id && node_matches_raw(
                            nodes@[k],
                            s[i],
                        ));
                    } else if k == p {
                        assert(nodes@[k] == n);
                        assert(s[j as int].id == nodes@[k].id && node_matches_raw(
                            nodes@[k],
                            s[j as int],
                        ));
                    } else {
                        assert(nodes@[k] == pre[k - 1]);
                        assert(node_backed(pre, s, k - 1, j as int));
                        let i = choose|i: int|
                            0 <= i < j && (#[trigger] s[i]).id == pre[k - 1].id
                                && node_matches_raw(pre[k - 1], s[i]);
                        assert(0 <= i < j + 1 && s[i].id == nodes@[k].id && node_matches_raw(
                            nodes@[k],
                            s[i],
                        ));
                    }
                }
                assert forall|i: int| 0 <= i < j + 1 implies node_ids_contain(
                    nodes@,
                    (#[trigger] s[i]).id,
                ) by {
                    if i < j {
                        assert(node_ids_contain(pre, s[i].id));
                        let k = choose|k: int| 0 <= k < pre.len() && (#[trigger] pre[k]).id == s[i].id;
                        if k < p {
                            assert(nodes@[k] == pre[k]);
                        } else {
                            assert(nodes@[k + 1] == pre[k]);
                        }
                    } else {
                        assert(nodes@[p] == n);
                    }
                }
            }
            j += 1;
        }
        proof {
            assert(s.len() == flat@.len());
            assert(nodes_model(nodes@, s));
            assert(nodup_all(s));
        }
        if nodes.len() == 0 {
            proof {
                if s.len() > 0 {
                    assert(node_ids_contain(nodes@, s[0].id));
                }
            }
            return Err(OpsError::EmptySpec);
        }
        // derive roots: ids that no child edge points at
        let mut roots: Vec<u32> = Vec::new();
        let mut k: usize = 0;
        while k < nodes.len()
            invariant
                k <= nodes.len(),
                nodes_model(nodes@, s),
                nodup_all(s),
                nodes@.len() > 0,
                u32s_sorted(roots@),
                forall|id: u32|
                    roots@.contains(id) <==> (exists|k2: int|
                        0 <= k2 < k && (#[trigger] nodes@[k2]).id == id && !id_has_parent(
                            nodes@,
                            id,
                        )),
                forall|ri: int|
                    0 <= ri < roots@.len() ==> exists|k2: int|
                        0 <= k2 < k && (#[trigger] roots@[ri]) == nodes@[k2].id,
            decreases nodes.len() - k,
        {
            let id = nodes[k].id;
            let mut seen: bool = false;
            let mut m: usize = 0;
            while m < nodes.len()
                invariant
                    m <= nodes.len(),
                    seen <==> exists|m2: int, ci: int|
                        0 <= m2 < m && 0 <= ci < nodes@[m2].children@.len()
                            && #[trigger] nodes@[m2].children@[ci] == id,
                decreases nodes.len() - m,
            {
                let ch = &nodes[m].children;
                let mut ci: usize = 0;
                while ci < ch.len()
                    invariant
                        ci <= ch.len(),
                        ch@ == nodes@[m as int].children@,
                        m < nodes.len(),
                        seen <==> (exists|m2: int, ci2: int|
                            0 <= m2 < m && 0 <= ci2 < nodes@[m2].children@.len()
                                && #[trigger] nodes@[m2].children@[ci2] == id) || (exists|ci2: int|
                            0 <= ci2 < ci && #[trigger] nodes@[m as int].children@[ci2] == id),
                    decreases ch.len() - ci,
                {
                    if ch[ci] == id {
                        seen = true;
                    }
                    ci += 1;
                }
                m += 1;
            }
            proof {
                assert(seen <==> id_has_parent(nodes@, id));
            }
            let ghost pre_roots = roots@;
            if !seen {
                roots.push(id);
            }
            proof {
                if !seen {
                    assert forall|p2: int, q2: int| 0 <= p2 < q2 < roots@.len() implies roots@[p2]
                        < roots@[q2] by {
                        if q2 == roots@.len() - 1 {
                            let k2 = choose|k2: int|
                                0 <= k2 < k && (#[trigger] pre_roots[p2]) == nodes@[k2].id;
                            assert(nodes@[k2].id < nodes@[k as int].id);
                        }
                    }
                }
                assert forall|id2: u32| roots@.contains(id2) implies (exists|k2: int|
                    0 <= k2 < k + 1 && (#[trigger] nodes@[k2]).id == id2 && !id_has_parent(
                        nodes@,
                        id2,
                    )) by {
                    let ri = choose|ri: int| 0 <= ri < roots@.len() && roots@[ri] == id2;
                    if ri < pre_roots.len() {
                        assert(pre_roots.contains(id2));
                    } else {
                        assert(id2 == id);
                        assert(nodes@[k as int].id == id2 && !id_has_parent(nodes@, id2));
                    }
                }
                assert forall|id2: u32| (exists|k2: int|
                    0 <= k2 < k + 1 && (#[trigger] nodes@[k2]).id == id2 && !id_has_parent(
                        nodes@,
                        id2,
                    )) implies roots@.contains(id2) by {
                    let k2 = choose|k2: int|
                        0 <= k2 < k + 1 && (#[trigger] nodes@[k2]).id == id2 && !id_has_parent(
                            nodes@,
                            id2,
                        );
                    if k2 < k {
                        assert(pre_roots.contains(id2));
                        let ri = choose|ri: int|
                            0 <= ri < pre_roots.len() && pre_roots[ri] == id2;
                        assert(roots@[ri] == id2);
                    } else {
                        assert(id2 == id);
                        assert(!seen);
                        assert(roots@[roots@.len() - 1] == id2);
                    }
                }
                assert forall|ri: int| 0 <= ri < roots@.len() implies exists|k2: int|
                    0 <= k2 < k + 1 && (#[trigger] roots@[ri]) == nodes@[k2].id by {
                    if ri < pre_roots.len() {
                        let k2 = choose|k2: int|
                            0 <= k2 < k && (#[trigger] pre_roots[ri]) == nodes@[k2].id;
                        assert(roots@[ri] == nodes@[k2].id);
                    } else {
                        assert(roots@[ri] == nodes@[k as int].id);
                    }
                }
            }
            k += 1;
        }
        // sanity: every declared child id must exist
        let mut k2: usize = 0;
        while k2 < nodes.len()
            invariant
                k2 <= nodes.len(),
                s == flat_nodes(*self),
                nodes_model(nodes@, s),
                nodup_all(s),
                nodes@.len() > 0,
                forall|m: int, ci: int|
                    0 <= m < k2 && 0 <= ci < nodes@[m].children@.len() ==> node_ids_contain(
                        nodes@,
                        #[trigger] nodes@[m].children@[ci],
                    ),
            decreases nodes.len() - k2,
        {
            let mut ci: usize = 0;
            while ci < nodes[k2].children.len()
                invariant
                    k2 < nodes.len(),
                    s == flat_nodes(*self),
                    nodes_model(nodes@, s),
                    nodup_all(s),
                    nodes@.len() > 0,
                    ci <= nodes@[k2 as int].children@.len(),
                    forall|m: int, ci2: int|
                        0 <= m < k2 && 0 <= ci2 < nodes@[m].children@.len() ==> node_ids_contain(
                            nodes@,
                            #[trigger] nodes@[m].children@[ci2],
                        ),
                    forall|ci2: int|
                        0 <= ci2 < ci ==> node_ids_contain(
                            nodes@,
                            #[trigger] nodes@[k2 as int].children@[ci2],
                        ),
                decreases nodes@[k2 as int].children@.len() - ci,
            {
                let cid = nodes[k2].children[ci];
                if find_node_idx(&nodes, cid).is_none() {
                    proof {
                        assert(nodes@[k2 as int].children@[ci as int] == cid);
                        assert(node_backed(nodes@, s, k2 as int, s.len() as int));
                        let ki = choose|i: int|
                            0 <= i < s.len() && (#[trigger] s[i]).id == nodes@[k2 as int].id
                                && node_matches_raw(nodes@[k2 as int], s[i]);
                        assert(s[ki].children@[ci as int] == cid);
                        assert(!flat_has_id(s, cid)) by {
                            if flat_has_id(s, cid) {
                                let fi = choose|i: int|
                                    0 <= i < s.len() && (#[trigger] s[i]).id == cid;
                                assert(node_ids_contain(nodes@, s[fi].id));
                            }
                        }
                        assert(!has_dup(s)) by {
                            if has_dup(s) {
                                let jd = choose|jd: int|
                                    0 <= jd < s.len() && #[trigger] dup_at(s, jd);
                                assert(!dup_at(s, jd));
                            }
                        }
                        assert(s.len() > 0) by {
                            if s.len() == 0 {
                                assert(node_backed(nodes@, s, 0, s.len() as int));
                                assert(false);
                            }
                        }
                    }
                    return Err(OpsError::DanglingChild { node: nodes[k2].id, child: cid });
                }
                ci += 1;
            }
            k2 += 1;
        }
        let v = ValidatedOps { nodes, roots };
        proof {
            let vn = v.nodes@;
            assert(!has_dup(s)) by {
                if has_dup(s) {
                    let jd = choose|jd: int| 0 <= jd < s.len() && #[trigger] dup_at(s, jd);
                    assert(!dup_at(s, jd));
                }
            }
            assert forall|k3: int| 0 <= k3 < vn.len() implies flat_has_id(
                s,
                (#[trigger] vn[k3]).id,
            ) && node_matches_raw(vn[k3], s[raw_index_of(s, vn[k3].id)]) by {
                assert(node_backed(vn, s, k3, s.len() as int));
                let i = choose|i: int|
                    0 <= i < s.len() && (#[trigger] s[i]).id == vn[k3].id && node_matches_raw(
                        vn[k3],
                        s[i],
                    );
                assert(flat_has_id(s, vn[k3].id));
                let i2 = raw_index_of(s, vn[k3].id);
                assert(0 <= i2 < s.len() && s[i2].id == vn[k3].id);
                if i2 != i {
                    if i < i2 {
                        assert(dup_at(s, i2));
                        assert(!dup_at(s, i2));
                    } else {
                        assert(dup_at(s, i));
                        assert(!dup_at(s, i));
                    }
                    assert(false);
                }
            }
            assert forall|i: int, ci: int|
                0 <= i < s.len() && 0 <= ci < s[i].children@.len() implies flat_has_id(
                s,
                #[trigger] s[i].children@[ci],
            ) by {
                assert(node_ids_contain(vn, s[i].id));
                let k3 = choose|k3: int| 0 <= k3 < vn.len() && (#[trigger] vn[k3]).id == s[i].id;
                assert(node_backed(vn, s, k3, s.len() as int));
                let fi = choose|fi: int|
                    0 <= fi < s.len() && (#[trigger] s[fi]).id == vn[k3].id && node_matches_raw(
                        vn[k3],
                        s[fi],
                    );
                if fi != i {
                    if i < fi {
                        assert(dup_at(s, fi));
                        assert(!dup_at(s, fi));
                    } else {
                        assert(dup_at(s, i));
                        assert(!dup_at(s, i));
                    }
                    assert(false);
                }
                assert(vn[k3].children@ == s[i].children@);
                assert(node_ids_contain(vn, vn[k3].children@[ci]));
                let km = choose|km: int|
                    0 <= km < vn.len() && (#[trigger] vn[km]).id == vn[k3].children@[ci];
                assert(node_backed(vn, s, km, s.len() as int));
                let fm = choose|fm: int|
                    0 <= fm < s.len() && (#[trigger] s[fm]).id == vn[km].id && node_matches_raw(
                        vn[km],
                        s[fm],
                    );
                assert(s[fm].id == s[i].children@[ci]);
            }
            assert(no_dangling(s));
            assert(s.len() > 0) by {
                if s.len() == 0 {
                    assert(vn.len() > 0);
                    assert(node_backed(vn, s, 0, s.len() as int));
                    assert(false);
                }
            }
            assert(validated_matches(*self, v));
        }
        Ok(v)
    }
}

} // verus!
