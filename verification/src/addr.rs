//! Address keys: ordered sequences of unsigned integers identifying one
//! measured unit of work, compared element-wise (lexicographically).

use vstd::prelude::*;

verus! {

use vstd::relations::sorted_by;

/// An operator address: an ordered sequence of non-negative integers.
/// Two addresses are equal iff they have identical length and elements.
#[derive(Debug)]
pub struct Addr(pub Vec<u32>);

impl View for Addr {
    type V = Seq<u32>;

    open spec fn view(&self) -> Seq<u32> {
        self.0@
    }
}

impl DeepView for Addr {
    type V = Seq<u32>;

    open spec fn deep_view(&self) -> Seq<u32> {
        self.0@
    }
}

impl Addr {
    pub fn new(parts: Vec<u32>) -> (r: Addr)
        ensures
            r@ == parts@,
    {
        Addr(parts)
    }

    pub fn copy(&self) -> (r: Addr)
        ensures
            r@ == self@,
    {
        let mut parts: Vec<u32> = Vec::new();
        let mut i: usize = 0;
        while i < self.0.len()
            invariant
                i <= self.0.len(),
                parts@ == self.0@.subrange(0, i as int),
            decreases self.0.len() - i,
        {
            let c = self.0[i];
            parts.push(c);
            i += 1;
            proof {
                assert(parts@ =~= self.0@.subrange(0, i as int));
            }
        }
        proof {
            assert(parts@ =~= self.0@);
        }
        Addr(parts)
    }
}

/// Lexicographic "less than or equal" on addresses: shorter prefixes come
/// first, otherwise the first differing element decides.
pub open spec fn addr_le(a: Seq<u32>, b: Seq<u32>) -> bool
    decreases a.len(),
{
    if a.len() == 0 {
        true
    } else if b.len() == 0 {
        false
    } else if a[0] != b[0] {
        a[0] < b[0]
    } else {
        addr_le(a.drop_first(), b.drop_first())
    }
}

/// The address order as a relation value.
pub open spec fn addr_leq() -> spec_fn(Seq<u32>, Seq<u32>) -> bool {
    |x: Seq<u32>, y: Seq<u32>| addr_le(x, y)
}

pub proof fn lemma_addr_le_refl(a: Seq<u32>)
    ensures
        addr_le(a, a),
    decreases a.len(),
{
    if a.len() > 0 {
        lemma_addr_le_refl(a.drop_first());
    }
}

pub proof fn lemma_addr_le_antisym(a: Seq<u32>, b: Seq<u32>)
    requires
        addr_le(a, b),
        addr_le(b, a),
    ensures
        a == b,
    decreases a.len(),
{
    if a.len() == 0 {
        assert(b.len() == 0);
        assert(a =~= b);
    } else {
        assert(b.len() > 0);
        assert(a[0] == b[0]);
        lemma_addr_le_antisym(a.drop_first(), b.drop_first());
        assert forall|i: int| 0 <= i < a.len() implies a[i] == b[i] by {
            if i > 0 {
                assert(a[i] == a.drop_first()[i - 1]);
                assert(b[i] == b.drop_first()[i - 1]);
            }
        }
        assert(a =~= b);
    }
}

pub proof fn lemma_addr_le_trans(a: Seq<u32>, b: Seq<u32>, c: Seq<u32>)
    requires
        addr_le(a, b),
        addr_le(b, c),
    ensures
        addr_le(a, c),
    decreases a.len(),
{
    if a.len() == 0 {
    } else {
        assert(b.len() > 0);
        assert(c.len() > 0);
        if a[0] == b[0] && b[0] == c[0] {
            lemma_addr_le_trans(a.drop_first(), b.drop_first(), c.drop_first());
        }
    }
}

pub proof fn lemma_addr_le_conn(a: Seq<u32>, b: Seq<u32>)
    ensures
        addr_le(a, b) || addr_le(b, a),
    decreases a.len(),
{
    if a.len() > 0 && b.len() > 0 && a[0] == b[0] {
        lemma_addr_le_conn(a.drop_first(), b.drop_first());
    }
}

/// Exact equality of two addresses.
pub fn addr_eq(a: &Addr, b: &Addr) -> (r: bool)
    ensures
        r == (a@ == b@),
{
    if a.0.len() != b.0.len() {
        proof {
            assert(a@ != b@);
        }
        return false;
    }
    let mut i: usize = 0;
    while i < a.0.len()
        invariant
            i <= a.0.len(),
            a.0.len() == b.0.len(),
            forall|j: int| 0 <= j < i ==> a@[j] == b@[j],
        decreases a.0.len() - i,
    {
        if a.0[i] != b.0[i] {
            return false;
        }
        i += 1;
    }
    proof {
        assert(a@ =~= b@);
    }
    true
}

/// Exact decision procedure for the address order.
pub fn addr_le_exec(a: &Addr, b: &Addr) -> (r: bool)
    ensures
        r == addr_le(a@, b@),
{
    let mut i: usize = 0;
    proof {
        assert(a@.skip(0) =~= a@);
        assert(b@.skip(0) =~= b@);
    }
    while i < a.0.len() && i < b.0.len()
        invariant
            i <= a.0.len(),
            i <= b.0.len(),
            addr_le(a@, b@) == addr_le(a@.skip(i as int), b@.skip(i as int)),
        decreases a.0.len() - i,
    {
        let x = a.0[i];
        let y = b.0[i];
        proof {
            assert(a@.skip(i as int)[0] == a@[i as int]);
            assert(b@.skip(i as int)[0] == b@[i as int]);
            assert(a@.skip(i as int).drop_first() =~= a@.skip(i as int + 1));
            assert(b@.skip(i as int).drop_first() =~= b@.skip(i as int + 1));
        }
        if x < y {
            return true;
        }
        if x > y {
            return false;
        }
        i += 1;
    }
    proof {
        if i >= a.0.len() {
            assert(a@.skip(i as int).len() == 0);
        } else {
            assert(b@.skip(i as int).len() == 0);
            assert(a@.skip(i as int).len() > 0);
        }
    }
    a.0.len() <= b.0.len()
}

/// A strictly ordered address set, as stored in a node's operator list.
pub open spec fn addr_set_ordered(s: Seq<Seq<u32>>) -> bool {
    &&& sorted_by(s, addr_leq())
    &&& s.no_duplicates()
}

/// Inserts an address into a strictly ordered address set; an address
/// already present is not inserted again.
pub fn insert_addr_set(out: &mut Vec<Addr>, x: Addr)
    requires
        addr_set_ordered(old(out).deep_view()),
    ensures
        addr_set_ordered(final(out).deep_view()),
        final(out).deep_view().to_set() == old(out).deep_view().to_set().insert(x@),
{
    let ghost orig = *out;
    let ghost old_dv = out.deep_view();
    let mut j: usize = 0;
    loop
        invariant
            j <= out.len(),
            *out == orig,
            old_dv == out.deep_view(),
            addr_set_ordered(old_dv),
            forall|k: int| 0 <= k < j ==> !addr_le(x@, #[trigger] old_dv[k]),
        ensures
            j <= out.len(),
            *out == orig,
            forall|k: int| 0 <= k < j ==> !addr_le(x@, #[trigger] old_dv[k]),
            j < out.len() ==> addr_le(x@, old_dv[j as int]),
        decreases out.len() - j,
    {
        if j >= out.len() {
            break;
        }
        proof {
            assert(out.deep_view()[j as int] =~= out@[j as int]@);
        }
        if addr_le_exec(&x, &out[j]) {
            break;
        }
        j += 1;
    }
    // every element before j is strictly below x
    proof {
        assert forall|k: int| 0 <= k < j implies addr_le(#[trigger] old_dv[k], x@) && old_dv[k]
            != x@ by {
            lemma_addr_le_conn(x@, old_dv[k]);
            if old_dv[k] == x@ {
                lemma_addr_le_refl(x@);
            }
        }
    }
    if j < out.len() {
        proof {
            assert(out.deep_view()[j as int] =~= out@[j as int]@);
        }
        if addr_eq(&out[j], &x) {
            // already present: the set is unchanged
            proof {
                assert(old_dv[j as int] == x@);
                assert(old_dv.to_set().contains(x@));
                assert(old_dv.to_set() =~= old_dv.to_set().insert(x@));
            }
            return ;
        }
    }
    out.insert(j, x);
    proof {
        let leq = addr_leq();
        let f = |v: Addr| v.deep_view();
        assert(out@ =~= orig@.insert(j as int, x));
        assert(out.deep_view() =~= out@.map_values(f));
        assert(old_dv =~= orig@.map_values(f));
        crate::order::lemma_map_values_insert(orig@, j as int, x, f);
        let ndv = out.deep_view();
        assert(ndv =~= old_dv.insert(j as int, x@));
        old_dv.insert_ensures(j as int, x@);
        // strictly below x before j, strictly above from j on
        assert forall|q: int| j <= q < old_dv.len() implies addr_le(x@, #[trigger] old_dv[q])
            && old_dv[q] != x@ by {
            assert(addr_le(x@, old_dv[j as int]));
            assert(old_dv[j as int] != x@);
            if q > j {
                assert(leq(old_dv[j as int], old_dv[q]));
                lemma_addr_le_trans(x@, old_dv[j as int], old_dv[q]);
                if old_dv[q] == x@ {
                    lemma_addr_le_antisym(x@, old_dv[j as int]);
                }
            }
        }
        assert forall|p: int, q: int| 0 <= p < q < ndv.len() implies #[trigger] leq(ndv[p], ndv[q])
            && ndv[p] != ndv[q] by {
            if q < j {
                assert(leq(old_dv[p], old_dv[q]));
            } else if p < j && q == j {
                assert(ndv[p] == old_dv[p]);
            } else if p < j && q > j {
                assert(leq(old_dv[p], old_dv[q - 1]));
                assert(addr_le(old_dv[p], x@));
            } else if p == j {
                assert(ndv[q] == old_dv[q - 1]);
            } else {
                assert(leq(old_dv[p - 1], old_dv[q - 1]));
            }
        }
        assert(sorted_by(ndv, addr_leq()));
        assert(ndv.no_duplicates());
        // set contents
        assert forall|e: Seq<u32>| ndv.to_set().contains(e) implies old_dv.to_set().insert(
            x@,
        ).contains(e) by {
            let i = choose|i: int| 0 <= i < ndv.len() && ndv[i] == e;
            if i < j {
                assert(old_dv[i] == e);
            } else if i > j {
                assert(old_dv[i - 1] == e);
            }
        }
        assert forall|e: Seq<u32>| old_dv.to_set().insert(x@).contains(e) implies ndv
            .to_set().contains(e) by {
            if e == x@ {
                assert(ndv[j as int] == e);
            } else {
                let i = choose|i: int| 0 <= i < old_dv.len() && old_dv[i] == e;
                if i < j {
                    assert(ndv[i] == e);
                } else {
                    assert(ndv[i + 1] == e);
                }
            }
        }
        assert(ndv.to_set() =~= old_dv.to_set().insert(x@));
    }
}

} // verus!
