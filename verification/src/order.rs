//! Byte-wise lexicographic ordering of names, and sorting of name vectors.
//!
//! Node names and rule fingerprints are byte strings (`Vec<u8>`). All
//! deterministic orderings in the report (parent normalization, root sets,
//! tree children, map key order) use the lexicographic order defined here.

use vstd::prelude::*;

verus! {

use vstd::multiset::Multiset;
use vstd::relations::{sorted_by, total_ordering};
use vstd::seq_lib::{lemma_sorted_unique, lemma_multiset_commutative};

/// Lexicographic "less than or equal" on byte strings: the empty string
/// comes first, otherwise the first differing byte decides.
pub open spec fn name_le(a: Seq<u8>, b: Seq<u8>) -> bool
    decreases a.len(),
{
    if a.len() == 0 {
        true
    } else if b.len() == 0 {
        false
    } else if a[0] != b[0] {
        a[0] < b[0]
    } else {
        name_le(a.drop_first(), b.drop_first())
    }
}

/// The lexicographic order as a relation value, for use with vstd's
/// sorting vocabulary.
pub open spec fn name_leq() -> spec_fn(Seq<u8>, Seq<u8>) -> bool {
    |x: Seq<u8>, y: Seq<u8>| name_le(x, y)
}

pub proof fn lemma_name_le_refl(a: Seq<u8>)
    ensures
        name_le(a, a),
    decreases a.len(),
{
    if a.len() > 0 {
        lemma_name_le_refl(a.drop_first());
    }
}

pub proof fn lemma_name_le_antisym(a: Seq<u8>, b: Seq<u8>)
    requires
        name_le(a, b),
        name_le(b, a),
    ensures
        a == b,
    decreases a.len(),
{
    if a.len() == 0 {
        assert(b.len() == 0);
        assert(a =~= b);
    } else {
        assert(b.len() > 0);
        assert(a[0] == b[0]);
        lemma_name_le_antisym(a.drop_first(), b.drop_first());
        assert(a.drop_first().len() == a.len() - 1);
        assert(b.drop_first().len() == b.len() - 1);
        assert(a.len() == b.len());
        assert forall|i: int| 0 <= i < a.len() implies a[i] == b[i] by {
            if i > 0 {
                assert(a.drop_first()[i - 1] == b.drop_first()[i - 1]);
                assert(a[i] == a.drop_first()[i - 1]);
                assert(b[i] == b.drop_first()[i - 1]);
            }
        }
        assert(a =~= b);
    }
}

pub proof fn lemma_name_le_trans(a: Seq<u8>, b: Seq<u8>, c: Seq<u8>)
    requires
        name_le(a, b),
        name_le(b, c),
    ensures
        name_le(a, c),
    decreases a.len(),
{
    if a.len() == 0 {
    } else {
        assert(b.len() > 0);
        assert(c.len() > 0);
        if a[0] == b[0] && b[0] == c[0] {
            lemma_name_le_trans(a.drop_first(), b.drop_first(), c.drop_first());
        }
    }
}

pub proof fn lemma_name_le_conn(a: Seq<u8>, b: Seq<u8>)
    ensures
        name_le(a, b) || name_le(b, a),
    decreases a.len(),
{
    if a.len() > 0 && b.len() > 0 && a[0] == b[0] {
        lemma_name_le_conn(a.drop_first(), b.drop_first());
    }
}

pub proof fn lemma_name_le_total_ordering()
    ensures
        total_ordering(name_leq()),
{
    let leq = name_leq();
    assert forall|x: Seq<u8>| #[trigger] leq(x, x) by {
        lemma_name_le_refl(x);
    }
    assert forall|x: Seq<u8>, y: Seq<u8>| #[trigger] leq(x, y) && #[trigger] leq(y, x) implies x
        == y by {
        lemma_name_le_antisym(x, y);
    }
    assert forall|x: Seq<u8>, y: Seq<u8>, z: Seq<u8>|
        #[trigger] leq(x, y) && #[trigger] leq(y, z) implies leq(x, z) by {
        lemma_name_le_trans(x, y, z);
    }
    assert forall|x: Seq<u8>, y: Seq<u8>| #[trigger] leq(x, y) || #[trigger] leq(y, x) by {
        lemma_name_le_conn(x, y);
    }
}

/// A `Vec<u8>`'s deep view is its plain view.
pub proof fn lemma_bytes_deep_view(v: Vec<u8>)
    ensures
        v.deep_view() == v@,
{
    assert(v.deep_view() =~= v@);
}

/// Inserting into the middle of a sequence inserts into its multiset.
pub proof fn lemma_to_multiset_insert<A>(s: Seq<A>, i: int, a: A)
    requires
        0 <= i <= s.len(),
    ensures
        s.insert(i, a).to_multiset() == s.to_multiset().insert(a),
{
    broadcast use vstd::seq_lib::group_to_multiset_ensures;

    let left = s.subrange(0, i);
    let right = s.subrange(i, s.len() as int);
    assert(s =~= left + right);
    assert(s.insert(i, a) =~= left + (seq![a] + right));
    lemma_multiset_commutative(left, right);
    lemma_multiset_commutative(left, seq![a] + right);
    lemma_multiset_commutative(seq![a], right);
    assert(seq![a] =~= Seq::<A>::empty().push(a));
    assert(Seq::<A>::empty().to_multiset() =~= Multiset::<A>::empty());
    assert(seq![a].to_multiset() =~= Multiset::<A>::empty().insert(a));
    assert(s.insert(i, a).to_multiset() =~= s.to_multiset().insert(a));
}

/// `map_values` distributes over `insert`.
pub proof fn lemma_map_values_insert<A, B>(s: Seq<A>, i: int, a: A, f: spec_fn(A) -> B)
    requires
        0 <= i <= s.len(),
    ensures
        s.insert(i, a).map_values(f) == s.map_values(f).insert(i, f(a)),
{
    s.insert_ensures(i, a);
    s.map_values(f).insert_ensures(i, f(a));
    assert(s.insert(i, a).map_values(f) =~= s.map_values(f).insert(i, f(a)));
}

/// Exact equality of two byte strings.
pub fn name_eq(a: &Vec<u8>, b: &Vec<u8>) -> (r: bool)
    ensures
        r == (a@ == b@),
{
    if a.len() != b.len() {
        proof {
            assert(a@ != b@);
        }
        return false;
    }
    let mut i: usize = 0;
    while i < a.len()
        invariant
            i <= a.len(),
            a.len() == b.len(),
            forall|j: int| 0 <= j < i ==> a@[j] == b@[j],
        decreases a.len() - i,
    {
        if a[i] != b[i] {
            return false;
        }
        i += 1;
    }
    proof {
        assert(a@ =~= b@);
    }
    true
}

/// Exact decision procedure for the lexicographic order.
pub fn name_le_exec(a: &Vec<u8>, b: &Vec<u8>) -> (r: bool)
    ensures
        r == name_le(a@, b@),
{
    let mut i: usize = 0;
    proof {
        assert(a@.skip(0) =~= a@);
        assert(b@.skip(0) =~= b@);
    }
    while i < a.len() && i < b.len()
        invariant
            i <= a.len(),
            i <= b.len(),
            name_le(a@, b@) == name_le(a@.skip(i as int), b@.skip(i as int)),
        decreases a.len() - i,
    {
        let x = a[i];
        let y = b[i];
        proof {
            assert(a@.skip(i as int)[0] == a@[i as int]);
            assert(b@.skip(i as int)[0] == b@[i as int]);
            assert(a@.skip(i as int).drop_first() =~= a@.skip(i as int + 1));
            assert(b@.skip(i as int).drop_first() =~= b@.skip(i as int + 1));
        }
        if x < y {
            return true;
        }
        if x > y {
            return false;
        }
        i += 1;
    }
    proof {
        if i >= a.len() {
            assert(a@.skip(i as int).len() == 0);
        } else {
            assert(b@.skip(i as int).len() == 0);
            assert(a@.skip(i as int).len() > 0);
        }
    }
    a.len() <= b.len()
}

/// Copies a byte string.
pub fn copy_name(x: &Vec<u8>) -> (r: Vec<u8>)
    ensures
        r@ == x@,
{
    let mut r: Vec<u8> = Vec::new();
    let mut i: usize = 0;
    while i < x.len()
        invariant
            i <= x.len(),
            r@ == x@.subrange(0, i as int),
        decreases x.len() - i,
    {
        let c = x[i];
        r.push(c);
        i += 1;
        proof {
            assert(r@ =~= x@.subrange(0, i as int));
        }
    }
    proof {
        assert(r@ =~= x@);
    }
    r
}

/// Inserts one name into a lexicographically sorted vector, keeping it
/// sorted; duplicates are kept.
pub fn insert_name_sorted(out: &mut Vec<Vec<u8>>, x: Vec<u8>)
    requires
        sorted_by(old(out).deep_view(), name_leq()),
    ensures
        sorted_by(final(out).deep_view(), name_leq()),
        final(out).deep_view().to_multiset() == old(out).deep_view().to_multiset().insert(x@),
{
    proof {
        lemma_bytes_deep_view(x);
    }
    let ghost orig = *out;
    let mut j: usize = 0;
    loop
        invariant
            j <= out.len(),
            *out == orig,
            sorted_by(out.deep_view(), name_leq()),
            forall|k: int| 0 <= k < j ==> name_le(#[trigger] out.deep_view()[k], x@),
        ensures
            j <= out.len(),
            *out == orig,
            forall|k: int| 0 <= k < j ==> name_le(#[trigger] out.deep_view()[k], x@),
            j < out.len() ==> name_le(x@, out.deep_view()[j as int]),
        decreases out.len() - j,
    {
        if j >= out.len() {
            break;
        }
        proof {
            assert(out.deep_view()[j as int] =~= out@[j as int]@);
        }
        if name_le_exec(&x, &out[j]) {
            break;
        }
        proof {
            lemma_name_le_conn(x@, out@[j as int]@);
        }
        j += 1;
    }
    let ghost old_dv = out.deep_view();
    out.insert(j, x);
    proof {
        let f = |v: Vec<u8>| v.deep_view();
        assert(out@ =~= old(out)@.insert(j as int, x));
        assert(out.deep_view() =~= out@.map_values(f));
        assert(old_dv =~= old(out)@.map_values(f));
        lemma_map_values_insert(old(out)@, j as int, x, f);
        assert(out.deep_view() =~= old_dv.insert(j as int, x@));
        lemma_to_multiset_insert(old_dv, j as int, x@);
        // sortedness of the new sequence
        let ndv = out.deep_view();
        let leq = name_leq();
        assert forall|p: int, q: int| 0 <= p < q < ndv.len() implies #[trigger] leq(
            ndv[p],
            ndv[q],
        ) by {
            old_dv.insert_ensures(j as int, x@);
            if q < j {
                assert(leq(old_dv[p], old_dv[q]));
            } else if p < j && q == j {
                assert(name_le(old_dv[p], x@));
            } else if p < j && q > j {
                assert(leq(old_dv[p], old_dv[q - 1]));
            } else if p == j {
                assert(name_le(x@, old_dv[j as int]));
                if j < q - 1 {
                    assert(leq(old_dv[j as int], old_dv[q - 1]));
                    lemma_name_le_trans(x@, old_dv[j as int], old_dv[q - 1]);
                }
                assert(name_le(x@, old_dv[q - 1]));
            } else {
                assert(leq(old_dv[p - 1], old_dv[q - 1]));
            }
        }
        assert(sorted_by(ndv, name_leq()));
    }
}

/// Sorts a vector of names lexicographically. The result is pinned to the
/// mathematical sort of the input's deep view.
pub fn sort_names(v: Vec<Vec<u8>>) -> (r: Vec<Vec<u8>>)
    ensures
        r.deep_view() == v.deep_view().sort_by(name_leq()),
        sorted_by(r.deep_view(), name_leq()),
{
    proof {
        lemma_name_le_total_ordering();
        v.deep_view().lemma_sort_by_ensures(name_leq());
    }
    let mut rest = v;
    let mut out: Vec<Vec<u8>> = Vec::new();
    proof {
        broadcast use vstd::seq_lib::group_to_multiset_ensures;

        assert(out.deep_view() =~= Seq::<Seq<u8>>::empty());
        assert(out.deep_view().to_multiset().add(rest.deep_view().to_multiset()) =~= v.deep_view().to_multiset());
    }
    while rest.len() > 0
        invariant
            sorted_by(out.deep_view(), name_leq()),
            out.deep_view().to_multiset().add(rest.deep_view().to_multiset())
                == v.deep_view().to_multiset(),
        decreases rest.len(),
    {
        let ghost pre_rest = rest.deep_view();
        let ghost pre_out = out.deep_view();
        let x = rest.pop().unwrap();
        proof {
            broadcast use vstd::seq_lib::group_to_multiset_ensures;

            let f = |w: Vec<u8>| w.deep_view();
            assert(rest.deep_view() =~= pre_rest.drop_last());
            lemma_bytes_deep_view(x);
            assert(pre_rest[pre_rest.len() - 1] == x@);
            assert(pre_rest.drop_last() =~= pre_rest.remove(pre_rest.len() - 1));
            assert(rest.deep_view().to_multiset() =~= pre_rest.to_multiset().remove(x@));
        }
        insert_name_sorted(&mut out, x);
        proof {
            broadcast use vstd::multiset::group_multiset_axioms;
            broadcast use vstd::seq_lib::group_to_multiset_ensures;

            assert(pre_rest.to_multiset().contains(pre_rest[pre_rest.len() - 1]));
            assert(out.deep_view().to_multiset().add(rest.deep_view().to_multiset())
                =~= v.deep_view().to_multiset());
        }
    }
    proof {
        assert(rest.deep_view() =~= Seq::<Seq<u8>>::empty());
        broadcast use vstd::seq_lib::group_to_multiset_ensures;

        assert(out.deep_view().to_multiset() =~= v.deep_view().to_multiset());
        lemma_sorted_unique(out.deep_view(), v.deep_view().sort_by(name_leq()), name_leq());
    }
    out
}

/// Two sequences without duplicates, sorted by the same total order and
/// holding the same set of elements, are the same sequence.
pub proof fn lemma_sorted_nodup_unique<A>(x: Seq<A>, y: Seq<A>, leq: spec_fn(A, A) -> bool)
    requires
        sorted_by(x, leq),
        sorted_by(y, leq),
        x.no_duplicates(),
        y.no_duplicates(),
        x.to_set() == y.to_set(),
        total_ordering(leq),
    ensures
        x == y,
{
    broadcast use vstd::seq_lib::group_to_multiset_ensures;

    x.lemma_multiset_has_no_duplicates();
    y.lemma_multiset_has_no_duplicates();
    assert forall|e: A| x.to_multiset().count(e) == y.to_multiset().count(e) by {
        if x.contains(e) {
            assert(x.to_set().contains(e));
            assert(y.to_set().contains(e));
            assert(y.contains(e));
        } else {
            assert(!x.to_set().contains(e));
            assert(!y.to_set().contains(e));
            assert(!y.contains(e));
            assert(x.to_multiset().count(e) == 0);
            assert(y.to_multiset().count(e) == 0);
        }
    }
    assert(x.to_multiset() =~= y.to_multiset());
    lemma_sorted_unique(x, y, leq);
}

/// Removes adjacent duplicates from a lexicographically sorted name vector,
/// leaving a strictly increasing vector with the same set of names.
pub fn dedup_names_sorted(v: &Vec<Vec<u8>>) -> (r: Vec<Vec<u8>>)
    requires
        sorted_by(v.deep_view(), name_leq()),
    ensures
        sorted_by(r.deep_view(), name_leq()),
        r.deep_view().no_duplicates(),
        r.deep_view().to_set() == v.deep_view().to_set(),
{
    let ghost dv = v.deep_view();
    let ghost leq = name_leq();
    let mut out: Vec<Vec<u8>> = Vec::new();
    let mut i: usize = 0;
    proof {
        assert(out.deep_view() =~= Seq::<Seq<u8>>::empty());
        assert(dv.take(0) =~= Seq::<Seq<u8>>::empty());
        assert(out.deep_view().to_set() =~= dv.take(0).to_set());
    }
    while i < v.len()
        invariant
            i <= v.len(),
            dv == v.deep_view(),
            sorted_by(dv, leq),
            leq == name_leq(),
            sorted_by(out.deep_view(), leq),
            out.deep_view().no_duplicates(),
            out.deep_view().to_set() == dv.take(i as int).to_set(),
            i == 0 ==> out.len() == 0,
            i > 0 ==> out.len() > 0 && out.deep_view()[out.len() - 1] == dv[i - 1],
        decreases v.len() - i,
    {
        let ghost odv = out.deep_view();
        let x = crate::order::copy_name(&v[i]);
        proof {
            assert(dv[i as int] =~= v@[i as int]@);
            assert(x.deep_view() =~= x@);
        }
        let mut push_it = true;
        if out.len() > 0 {
            if name_eq(&out[out.len() - 1], &x) {
                push_it = false;
            }
            proof {
                assert(odv[out.len() - 1] =~= out@[out.len() - 1]@);
            }
        }
        if push_it {
            out.push(x);
            proof {
                assert(out.deep_view() =~= odv.push(dv[i as int]));
                let ndv = out.deep_view();
                // sortedness and distinctness of the extended vector
                assert forall|k: int| 0 <= k < odv.len() implies leq(#[trigger] odv[k], dv[i as int])
                    && odv[k] != dv[i as int] by {
                    assert(odv.to_set().contains(odv[k]));
                    assert(dv.take(i as int).to_set().contains(odv[k]));
                    let m = choose|m: int| 0 <= m < dv.take(i as int).len() && dv.take(i as int)[m]
                        == odv[k];
                    assert(dv[m] == odv[k]);
                    if i > 0 {
                        if m < i - 1 {
                            assert(leq(dv[m], dv[i - 1]));
                        } else {
                            assert(dv[m] == dv[i - 1]);
                            lemma_name_le_refl(dv[m]);
                        }
                        assert(leq(dv[i - 1], dv[i as int]));
                        lemma_name_le_trans(dv[m], dv[i - 1], dv[i as int]);
                        // distinct: the last element differs from dv[i], and odv[k] <= last
                        if odv[k] == dv[i as int] {
                            assert(odv[odv.len() - 1] == dv[i - 1]);
                            assert(leq(odv[k], dv[i - 1]) || k == odv.len() - 1);
                            if k < odv.len() - 1 {
                                assert(leq(odv[k], odv[odv.len() - 1]));
                                lemma_name_le_antisym(dv[i as int], dv[i - 1]);
                            }
                        }
                    }
                }
                assert(sorted_by(ndv, leq));
                assert(ndv.no_duplicates());
                assert(dv.take(i + 1) =~= dv.take(i as int).push(dv[i as int]));
                assert forall|e: Seq<u8>| ndv.to_set().contains(e) <==> dv.take(
                    i + 1,
                ).to_set().contains(e) by {
                    if ndv.to_set().contains(e) {
                        let k = choose|k: int| 0 <= k < ndv.len() && ndv[k] == e;
                        if k < odv.len() {
                            assert(odv.to_set().contains(e));
                            assert(dv.take(i as int).contains(e));
                            let m = choose|m: int| 0 <= m < i && #[trigger] dv.take(i as int)[m] == e;
                            assert(dv.take(i + 1)[m] == e);
                        } else {
                            assert(dv.take(i + 1)[i as int] == e);
                        }
                    }
                    if dv.take(i + 1).to_set().contains(e) {
                        let m = choose|m: int| 0 <= m < i + 1 && #[trigger] dv.take(i + 1)[m] == e;
                        if m < i {
                            assert(dv.take(i as int)[m] == e);
                            assert(odv.to_set().contains(e));
                            let k = choose|k: int| 0 <= k < odv.len() && odv[k] == e;
                            assert(ndv[k] == e);
                        } else {
                            assert(ndv[ndv.len() - 1] == e);
                        }
                    }
                }
                assert(ndv.to_set() =~= dv.take(i + 1).to_set());
            }
        } else {
            proof {
                // dv[i] equals dv[i-1], already in the set
                assert(out.len() > 0);
                assert(odv[out.len() - 1] == dv[i as int]);
                assert(odv[out.len() - 1] == dv[i - 1]);
                assert(dv.take(i + 1) =~= dv.take(i as int).push(dv[i as int]));
                assert forall|e: Seq<u8>| dv.take(i + 1).to_set().contains(e) implies odv
                    .to_set().contains(e) by {
                    let m = choose|m: int| 0 <= m < i + 1 && #[trigger] dv.take(i + 1)[m] == e;
                    if m < i {
                        assert(dv.take(i as int)[m] == e);
                    } else {
                        assert(e == dv[i as int]);
                        assert(odv[out.len() - 1] == e);
                    }
                }
                assert forall|e: Seq<u8>| odv.to_set().contains(e) implies dv.take(
                    i + 1,
                ).to_set().contains(e) by {
                    assert(dv.take(i as int).contains(e));
                    let m = choose|m: int| 0 <= m < i && #[trigger] dv.take(i as int)[m] == e;
                    assert(dv.take(i + 1)[m] == e);
                }
                assert(odv.to_set() =~= dv.take(i + 1).to_set());
            }
        }
        i += 1;
    }
    proof {
        assert(dv.take(v.len() as int) =~= dv);
    }
    out
}

} // verus!
