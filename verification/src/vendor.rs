//! The vendor lookup table and the vendor-registry snapshot format.
//!
//! The table is an immutable mapping from a six-byte vendor identifier
//! (the first six characters of a device identifier) to the vendor's
//! name.  It is built once from a public line-oriented registry snapshot,
//! in which a line carrying the marker `base 16` at bytes 12..19 yields a
//! vendor identifier at bytes 0..6 and a free-text vendor name from byte
//! 22 onward, trimmed of surrounding whitespace.

use vstd::prelude::*;

use crate::bytemap::ByteMap;
use crate::record::copy_field;

verus! {

/// The vendor table: vendor identifier to vendor name.
pub type VendorTable = ByteMap<String>;

/// The byte is ASCII whitespace, as the registry snapshot pads names
/// with it.
pub open spec fn is_ws(b: u8) -> bool {
    b == 32 || b == 9 || b == 10 || b == 13 || b == 11 || b == 12
}

/// `s` without its leading whitespace.
pub open spec fn ltrim(s: Seq<u8>) -> Seq<u8>
    decreases s.len(),
{
    if s.len() == 0 || !is_ws(s[0]) {
        s
    } else {
        ltrim(s.drop_first())
    }
}

/// `s` without its trailing whitespace.
pub open spec fn rtrim(s: Seq<u8>) -> Seq<u8>
    decreases s.len(),
{
    if s.len() == 0 || !is_ws(s.last()) {
        s
    } else {
        rtrim(s.drop_last())
    }
}

/// `s` without surrounding whitespace.
pub open spec fn trimmed(s: Seq<u8>) -> Seq<u8> {
    rtrim(ltrim(s))
}

/// The marker `base 16`, as bytes.
pub open spec fn base16_marker() -> Seq<u8> {
    seq![98u8, 97u8, 115u8, 101u8, 32u8, 49u8, 54u8]
}

/// The snapshot line describes one vendor: it carries the `base 16`
/// marker at bytes 12..19.
pub open spec fn is_vendor_entry(l: Seq<u8>) -> bool {
    l.len() >= 19 && l.subrange(12, 19) == base16_marker()
}

/// The vendor name a snapshot line carries: everything from byte 22 on,
/// trimmed.  A marker line too short to reach byte 22 names nothing.
pub open spec fn vendor_name_of(l: Seq<u8>) -> Seq<u8> {
    if l.len() >= 22 {
        trimmed(l.subrange(22, l.len() as int))
    } else {
        Seq::empty()
    }
}

/// If the first `a` bytes of `s` are whitespace and byte `a` (if any) is
/// none, trimming from the left drops exactly those `a` bytes.
proof fn lemma_ltrim_skip(s: Seq<u8>, a: int)
    requires
        0 <= a <= s.len(),
        forall|j: int| 0 <= j < a ==> is_ws(#[trigger] s[j]),
        a < s.len() ==> !is_ws(s[a]),
    ensures
        ltrim(s) =~= s.skip(a),
    decreases a,
{
    if a > 0 {
        lemma_ltrim_skip(s.drop_first(), a - 1);
        assert(s.drop_first().skip(a - 1) =~= s.skip(a));
    } else {
        if s.len() > 0 {
            assert(!is_ws(s[0]));
        }
        assert(s.skip(0) =~= s);
    }
}

/// If the bytes from `b` on are whitespace and byte `b - 1` (if any) is
/// none, trimming from the right keeps exactly the first `b` bytes.
proof fn lemma_rtrim_take(s: Seq<u8>, b: int)
    requires
        0 <= b <= s.len(),
        forall|j: int| b <= j < s.len() ==> is_ws(#[trigger] s[j]),
        b > 0 ==> !is_ws(s[b - 1]),
    ensures
        rtrim(s) =~= s.take(b),
    decreases s.len(),
{
    if b < s.len() {
        lemma_rtrim_take(s.drop_last(), b);
        assert(s.drop_last().take(b) =~= s.take(b));
    } else {
        assert(s.take(b) =~= s);
        if s.len() > 0 {
            assert(!is_ws(s.last()));
        }
    }
}

/// The byte is ASCII whitespace.
fn is_ws_byte(c: u8) -> (r: bool)
    ensures
        r == is_ws(c),
{
    c == 32 || c == 9 || c == 10 || c == 13 || c == 11 || c == 12
}

/// Copies `s` without its surrounding whitespace.
pub fn trim_bytes(s: &Vec<u8>) -> (r: Vec<u8>)
    ensures
        r@ == trimmed(s@),
{
    let mut a: usize = 0;
    while a < s.len() && is_ws_byte(s[a])
        invariant
            0 <= a <= s@.len(),
            forall|j: int| 0 <= j < a ==> is_ws(#[trigger] s@[j]),
        decreases s@.len() - a,
    {
        a = a + 1;
    }
    proof {
        lemma_ltrim_skip(s@, a as int);
    }
    if a == s.len() {
        proof {
            assert(ltrim(s@) =~= Seq::<u8>::empty());
            assert(rtrim(Seq::<u8>::empty()) =~= Seq::<u8>::empty());
        }
        return Vec::new();
    }
    let mut b: usize = s.len();
    while b > a + 1 && is_ws_byte(s[b - 1])
        invariant
            a < b <= s@.len(),
            forall|j: int| b <= j < s@.len() ==> is_ws(#[trigger] s@[j]),
        decreases b,
    {
        b = b - 1;
    }
    proof {
        let t = s@.skip(a as int);
        assert(!is_ws(s@[a as int]));
        assert forall|j: int| (b - a) <= j < t.len() implies is_ws(#[trigger] t[j]) by {
            assert(t[j] == s@[j + a]);
        }
        assert(t[(b - a) as int - 1] == s@[b as int - 1]);
        if b > a + 1 {
            assert(!is_ws(s@[b as int - 1]));
        } else {
            assert(b == a + 1);
            assert(!is_ws(s@[a as int]));
        }
        lemma_rtrim_take(t, (b - a) as int);
        assert(t.take((b - a) as int) =~= s@.subrange(a as int, b as int));
    }
    copy_field(s, a, b)
}

/// Reads one line of the vendor-registry snapshot.  `None` when the line
/// describes no vendor; otherwise the six-byte vendor identifier and the
/// trimmed vendor name.
pub fn parse_vendor_line(line: &Vec<u8>) -> (r: Option<(Vec<u8>, Vec<u8>)>)
    ensures
        r is Some <==> is_vendor_entry(line@),
        r matches Some(p) ==> p.0@ == line@.subrange(0, 6) && p.1@ == vendor_name_of(line@),
{
    if line.len() < 19 {
        return None;
    }
    let marker: [u8; 7] = [98, 97, 115, 101, 32, 49, 54];
    let mut i: usize = 0;
    while i < 7
        invariant
            0 <= i <= 7,
            line@.len() >= 19,
            marker@ == base16_marker(),
            forall|j: int| 0 <= j < i ==> line@[12 + j] == base16_marker()[j],
        decreases 7 - i,
    {
        if line[12 + i] != marker[i] {
            proof {
                assert(line@.subrange(12, 19)[i as int] != base16_marker()[i as int]);
            }
            return None;
        }
        i = i + 1;
    }
    proof {
        assert(line@.subrange(12, 19) =~= base16_marker());
    }
    let key = copy_field(line, 0, 6);
    if line.len() < 22 {
        return Some((key, Vec::new()));
    }
    let raw = copy_field(line, 22, line.len());
    let name = trim_bytes(&raw);
    Some((key, name))
}

} // verus!
