//! The log index: one measured row per distinct operator address.

use vstd::prelude::*;

verus! {

use crate::addr::Addr;

/// One measured operator row. Active time is carried as an integer count of
/// microseconds so that aggregate sums are exact.
pub struct LogRow {
    pub addr: Addr,
    pub activations: u64,
    pub total_active_us: u64,
    pub op_name: String,
}

/// True when no two rows carry the same address.
pub open spec fn rows_addr_unique(rows: Seq<LogRow>) -> bool {
    forall|i: int, j: int|
        0 <= i < j < rows.len() ==> (#[trigger] rows[i]).addr@ != (#[trigger] rows[j]).addr@
}

/// True when some row carries the address.
pub open spec fn rows_have_addr(rows: Seq<LogRow>, a: Seq<u32>) -> bool {
    exists|i: int| 0 <= i < rows.len() && (#[trigger] rows[i]).addr@ == a
}

/// The index of the row carrying the address (unique when the rows are
/// address-unique).
pub open spec fn rows_addr_index(rows: Seq<LogRow>, a: Seq<u32>) -> int {
    choose|i: int| 0 <= i < rows.len() && (#[trigger] rows[i]).addr@ == a
}

/// An index of log rows keyed by address. The upstream parser guarantees
/// unique addresses; insertion re-checks that guarantee.
pub struct LogIndex {
    entries: Vec<LogRow>,
}

impl LogIndex {
    /// The rows in insertion order.
    pub closed spec fn rows(&self) -> Seq<LogRow> {
        self.entries@
    }

    /// Address uniqueness always holds for an index built through `insert_row`.
    pub open spec fn wf(&self) -> bool {
        rows_addr_unique(self.rows())
    }

    pub fn new() -> (r: LogIndex)
        ensures
            r.rows() == Seq::<LogRow>::empty(),
            r.wf(),
    {
        let r = LogIndex { entries: Vec::new() };
        proof {
            assert(r.rows() =~= Seq::<LogRow>::empty());
        }
        r
    }

    /// Number of rows in the index.
    pub fn len(&self) -> (r: usize)
        ensures
            r == self.rows().len(),
    {
        self.entries.len()
    }

    /// Looks up the row carrying the given address, if any.
    pub fn get<'a>(&'a self, a: &Addr) -> (r: Option<&'a LogRow>)
        requires
            self.wf(),
        ensures
            match r {
                Some(row) => rows_have_addr(self.rows(), a@) && *row == self.rows()[
                    rows_addr_index(self.rows(), a@)
                ] && row.addr@ == a@,
                None => !rows_have_addr(self.rows(), a@),
            },
    {
        let mut i: usize = 0;
        while i < self.entries.len()
            invariant
                i <= self.entries.len(),
                self.wf(),
                forall|j: int| 0 <= j < i ==> (#[trigger] self.rows()[j]).addr@ != a@,
            decreases self.entries.len() - i,
        {
            if crate::addr::addr_eq(&self.entries[i].addr, a) {
                proof {
                    assert(self.rows()[i as int].addr@ == a@);
                    let k = rows_addr_index(self.rows(), a@);
                    assert(0 <= k < self.rows().len() && self.rows()[k].addr@ == a@);
                    if k != i as int {
                        assert(false);
                    }
                }
                return Some(&self.entries[i]);
            }
            i += 1;
        }
        None
    }

    /// Inserts a row; returns false (and leaves the index unchanged) when a
    /// row with the same address is already present.
    pub fn insert_row(&mut self, row: LogRow) -> (ok: bool)
        requires
            old(self).wf(),
        ensures
            final(self).wf(),
            ok == !rows_have_addr(old(self).rows(), row.addr@),
            ok ==> final(self).rows() == old(self).rows().push(row),
            !ok ==> *final(self) == *old(self),
    {
        let mut i: usize = 0;
        while i < self.entries.len()
            invariant
                i <= self.entries.len(),
                *self == *old(self),
                old(self).wf(),
                forall|j: int| 0 <= j < i ==> (#[trigger] self.rows()[j]).addr@ != row.addr@,
            decreases self.entries.len() - i,
        {
            if crate::addr::addr_eq(&self.entries[i].addr, &row.addr) {
                return false;
            }
            i += 1;
        }
        self.entries.push(row);
        proof {
            let rows = self.rows();
            let n = rows.len();
            assert forall|p: int, q: int| 0 <= p < q < n implies (#[trigger] rows[p]).addr@ != (
            #[trigger] rows[q]).addr@ by {
                if q == n - 1 {
                    assert(rows[p] == old(self).rows()[p]);
                } else {
                    assert(rows[p] == old(self).rows()[p]);
                    assert(rows[q] == old(self).rows()[q]);
                }
            }
        }
        true
    }
}

// ---------------------------------------------------------------------------
// Address literal parsing: "[0, 8, 10]" -> Addr([0, 8, 10]).
// ---------------------------------------------------------------------------

/// ASCII whitespace, as the standard trim sees it on ASCII input.
pub open spec fn is_ws(b: u8) -> bool {
    b == 32 || b == 9 || b == 10 || b == 12 || b == 13
}

/// Drops leading whitespace.
pub open spec fn trim_front(s: Seq<u8>) -> Seq<u8>
    decreases s.len(),
{
    if s.len() > 0 && is_ws(s[0]) {
        trim_front(s.drop_first())
    } else {
        s
    }
}

/// Drops trailing whitespace.
pub open spec fn trim_back(s: Seq<u8>) -> Seq<u8>
    decreases s.len(),
{
    if s.len() > 0 && is_ws(s.last()) {
        trim_back(s.drop_last())
    } else {
        s
    }
}

/// Drops surrounding whitespace.
pub open spec fn trimmed(s: Seq<u8>) -> Seq<u8> {
    trim_back(trim_front(s))
}

/// How one comma-separated piece of an address literal reads.
pub enum PartParse {
    /// Only whitespace: the piece is skipped.
    Skip,
    /// A decimal number fitting an element.
    Value(u32),
    /// Anything else: the literal is rejected.
    Malformed,
}

/// Left-to-right decimal scan with accumulator; `None` on a non-digit.
pub open spec fn num_scan(t: Seq<u8>, acc: int) -> Option<int>
    decreases t.len(),
{
    if t.len() == 0 {
        Some(acc)
    } else if 48 <= t[0] <= 57 {
        num_scan(t.drop_first(), acc * 10 + (t[0] - 48))
    } else {
        None
    }
}

/// How one piece parses: trimmed, with an optional leading plus sign.
pub open spec fn part_parse(p: Seq<u8>) -> PartParse {
    let t = trimmed(p);
    if t.len() == 0 {
        PartParse::Skip
    } else {
        let t2 = if t[0] == 43 {
            t.drop_first()
        } else {
            t
        };
        if t2.len() == 0 {
            PartParse::Malformed
        } else {
            match num_scan(t2, 0) {
                Option::Some(v) => if v <= u32::MAX {
                    PartParse::Value(v as u32)
                } else {
                    PartParse::Malformed
                },
                Option::None => PartParse::Malformed,
            }
        }
    }
}

/// Scans the bracket interior: pieces are separated by commas, empty pieces
/// are skipped, and the first malformed piece rejects the literal.
pub open spec fn scan_elems(s: Seq<u8>, cur: Seq<u8>, acc: Seq<u32>) -> Option<Seq<u32>>
    decreases s.len(),
{
    if s.len() == 0 {
        match part_parse(cur) {
            PartParse::Skip => Some(acc),
            PartParse::Value(v) => Some(acc.push(v)),
            PartParse::Malformed => None,
        }
    } else if s[0] == 44 {
        match part_parse(cur) {
            PartParse::Skip => scan_elems(s.drop_first(), Seq::empty(), acc),
            PartParse::Value(v) => scan_elems(s.drop_first(), Seq::empty(), acc.push(v)),
            PartParse::Malformed => None,
        }
    } else {
        scan_elems(s.drop_first(), cur.push(s[0]), acc)
    }
}

/// The literal is bracketed after trimming.
pub open spec fn addr_bracketed(s: Seq<u8>) -> bool {
    let t = trimmed(s);
    t.len() >= 2 && t[0] == 91 && t.last() == 93
}

/// What an address literal denotes, if anything.
pub open spec fn parse_addr_spec(s: Seq<u8>) -> Option<Seq<u32>> {
    if addr_bracketed(s) {
        let t = trimmed(s);
        let inner = trimmed(t.subrange(1, t.len() - 1));
        if inner.len() == 0 {
            Some(Seq::empty())
        } else {
            scan_elems(inner, Seq::empty(), Seq::empty())
        }
    } else {
        None
    }
}

/// Why an address literal was rejected.
#[derive(Debug, PartialEq)]
pub enum AddrParseError {
    /// The literal is not surrounded by square brackets.
    NotBracketed,
    /// Some piece is not a decimal number fitting an element.
    BadElement,
}

/// Trims surrounding whitespace.
fn trim_bytes(s: &Vec<u8>) -> (r: Vec<u8>)
    ensures
        r@ == trimmed(s@),
{
    let n = s.len();
    let mut lo: usize = 0;
    proof {
        assert(s@.skip(0) =~= s@);
    }
    while lo < n && (s[lo] == 32 || s[lo] == 9 || s[lo] == 10 || s[lo] == 12 || s[lo] == 13)
        invariant
            lo <= n,
            n == s@.len(),
            trim_front(s@) == trim_front(s@.skip(lo as int)),
        decreases n - lo,
    {
        proof {
            assert(s@.skip(lo as int)[0] == s@[lo as int]);
            assert(s@.skip(lo as int).drop_first() =~= s@.skip(lo as int + 1));
        }
        lo += 1;
    }
    proof {
        if lo < n {
            assert(s@.skip(lo as int)[0] == s@[lo as int]);
            assert(!is_ws(s@.skip(lo as int)[0]));
        } else {
            assert(s@.skip(lo as int).len() == 0);
        }
        assert(trim_front(s@) == s@.skip(lo as int));
    }
    let mut hi: usize = n;
    proof {
        assert(s@.subrange(lo as int, hi as int) =~= s@.skip(lo as int));
    }
    while hi > lo && (s[hi - 1] == 32 || s[hi - 1] == 9 || s[hi - 1] == 10 || s[hi - 1] == 12
        || s[hi - 1] == 13)
        invariant
            lo <= hi <= n,
            n == s@.len(),
            trim_front(s@) == s@.skip(lo as int),
            trim_back(s@.skip(lo as int)) == trim_back(s@.subrange(lo as int, hi as int)),
        decreases hi,
    {
        proof {
            let sub = s@.subrange(lo as int, hi as int);
            assert(sub.last() == s@[hi as int - 1]);
            assert(sub.drop_last() =~= s@.subrange(lo as int, hi as int - 1));
        }
        hi -= 1;
    }
    proof {
        let sub = s@.subrange(lo as int, hi as int);
        if hi > lo {
            assert(sub.last() == s@[hi as int - 1]);
            assert(!is_ws(sub.last()));
        } else {
            assert(sub.len() == 0);
        }
        assert(trim_back(s@.skip(lo as int)) == sub);
        assert(trimmed(s@) == sub);
    }
    let mut r: Vec<u8> = Vec::new();
    let mut i: usize = lo;
    while i < hi
        invariant
            lo <= i <= hi <= n,
            n == s@.len(),
            r@ == s@.subrange(lo as int, i as int),
        decreases hi - i,
    {
        let c = s[i];
        r.push(c);
        i += 1;
        proof {
            assert(r@ =~= s@.subrange(lo as int, i as int));
        }
    }
    proof {
        assert(r@ =~= s@.subrange(lo as int, hi as int));
    }
    r
}

/// Parses one comma-separated piece.
fn part_parse_exec(p: &Vec<u8>) -> (r: PartParse)
    ensures
        r == part_parse(p@),
{
    let t = trim_bytes(p);
    if t.len() == 0 {
        return PartParse::Skip;
    }
    let start: usize = if t[0] == 43 {
        1
    } else {
        0
    };
    let ghost t2 = if t@[0] == 43 {
        t@.drop_first()
    } else {
        t@
    };
    proof {
        assert(t2 =~= t@.skip(start as int));
    }
    if start >= t.len() {
        proof {
            assert(t2.len() == 0);
        }
        return PartParse::Malformed;
    }
    let mut acc: u64 = 0;
    let mut too_big: bool = false;
    let ghost mut acc_g: int = 0;
    let mut k: usize = start;
    proof {
        assert(t2.skip(0) =~= t2);
    }
    while k < t.len()
        invariant
            start <= k <= t@.len(),
            t@ == trimmed(p@),
            t@.len() > 0,
            start == (if t@[0] == 43 {
                1int
            } else {
                0int
            }),
            start < t@.len(),
            t2 == (if t@[0] == 43 {
                t@.drop_first()
            } else {
                t@
            }),
            t2 == t@.skip(start as int),
            num_scan(t2, 0) == num_scan(t2.skip(k - start), acc_g),
            !too_big ==> acc == acc_g,
            too_big ==> acc_g > u32::MAX,
            acc <= u32::MAX,
            acc_g >= 0,
        decreases t@.len() - k,
    {
        let b = t[k];
        proof {
            assert(t2.skip(k - start)[0] == t@[k as int]);
            assert(t2.skip(k - start).drop_first() =~= t2.skip(k + 1 - start));
        }
        if b < 48 || b > 57 {
            proof {
                assert(num_scan(t2.skip(k - start), acc_g) is None);
            }
            return PartParse::Malformed;
        }
        let d = (b - 48) as u64;
        proof {
            acc_g = acc_g * 10 + (b - 48);
        }
        if too_big {
            proof {
                assert(acc_g > u32::MAX);
            }
        } else {
            let a2 = acc * 10 + d;
            if a2 > u32::MAX as u64 {
                too_big = true;
            } else {
                acc = a2;
            }
        }
        k += 1;
    }
    proof {
        assert(t2.skip(k - start).len() == 0);
        assert(num_scan(t2, 0) == Some(acc_g));
    }
    if too_big {
        PartParse::Malformed
    } else {
        PartParse::Value(acc as u32)
    }
}

/// Parses a bracketed address literal such as "[0, 8, 10]". Surrounding
/// whitespace is tolerated, empty pieces are skipped, and each element must
/// be a decimal number fitting an unsigned 32-bit integer.
pub fn parse_addr(s: &Vec<u8>) -> (r: Result<Addr, AddrParseError>)
    ensures
        match r {
            Ok(a) => parse_addr_spec(s@) == Some(a@),
            Err(AddrParseError::NotBracketed) => !addr_bracketed(s@),
            Err(AddrParseError::BadElement) => addr_bracketed(s@) && parse_addr_spec(s@)
                is None,
        },
{
    let t = trim_bytes(s);
    if t.len() < 2 {
        return Err(AddrParseError::NotBracketed);
    }
    if t[0] != 91 || t[t.len() - 1] != 93 {
        return Err(AddrParseError::NotBracketed);
    }
    // the interior, trimmed again
    let mut interior: Vec<u8> = Vec::new();
    let mut i: usize = 1;
    while i < t.len() - 1
        invariant
            1 <= i <= t@.len() - 1,
            interior@ == t@.subrange(1, i as int),
        decreases t@.len() - 1 - i,
    {
        let c = t[i];
        interior.push(c);
        i += 1;
        proof {
            assert(interior@ =~= t@.subrange(1, i as int));
        }
    }
    proof {
        assert(interior@ =~= t@.subrange(1, t@.len() - 1));
    }
    let inner = trim_bytes(&interior);
    if inner.len() == 0 {
        let a = Addr::new(Vec::new());
        proof {
            assert(a@ =~= Seq::<u32>::empty());
        }
        return Ok(a);
    }
    // scan the pieces
    let ghost inn = inner@;
    let mut cur: Vec<u8> = Vec::new();
    let mut acc: Vec<u32> = Vec::new();
    let mut k: usize = 0;
    proof {
        assert(inn.skip(0) =~= inn);
        assert(cur@ =~= Seq::<u8>::empty());
        assert(acc@ =~= Seq::<u32>::empty());
        assert(addr_bracketed(s@));
        assert(parse_addr_spec(s@) == scan_elems(inn, Seq::empty(), Seq::empty()));
    }
    while k < inner.len()
        invariant
            k <= inn.len(),
            inn == inner@,
            addr_bracketed(s@),
            parse_addr_spec(s@) == scan_elems(inn.skip(k as int), cur@, acc@),
        decreases inn.len() - k,
    {
        let b = inner[k];
        proof {
            assert(inn.skip(k as int)[0] == inn[k as int]);
            assert(inn.skip(k as int).drop_first() =~= inn.skip(k as int + 1));
        }
        if b == 44 {
            match part_parse_exec(&cur) {
                PartParse::Skip => {
                    cur = Vec::new();
                    proof {
                        assert(cur@ =~= Seq::<u8>::empty());
                    }
                },
                PartParse::Value(v) => {
                    acc.push(v);
                    cur = Vec::new();
                    proof {
                        assert(cur@ =~= Seq::<u8>::empty());
                    }
                },
                PartParse::Malformed => {
                    return Err(AddrParseError::BadElement);
                },
            }
        } else {
            cur.push(b);
        }
        k += 1;
    }
    proof {
        assert(inn.skip(inn.len() as int).len() == 0);
    }
    match part_parse_exec(&cur) {
        PartParse::Skip => Ok(Addr::new(acc)),
        PartParse::Value(v) => {
            acc.push(v);
            Ok(Addr::new(acc))
        },
        PartParse::Malformed => Err(AddrParseError::BadElement),
    }
}

} // verus!
