//! The fixed-offset record view.
//!
//! A log line is a byte sequence in which every field occupies an exact
//! byte range: bytes 0..10 hold the decimal timestamp, 11..26 the device
//! identifier (whose first six bytes are the vendor identifier), 27..42
//! the access-point identifier, 43..49 the decimal byte count, and byte 50
//! the direction token (`b'u'` marks an upload).  A decimal field is
//! fixed-width and must hold ASCII digits throughout: any non-digit byte
//! in it is a fatal input error.

use vstd::prelude::*;

verus! {

/// Whether a traffic record moves data from the device into the network
/// (an upload, recorded as received by the network) or the other way.
#[derive(Debug, Clone, Copy, PartialEq, Eq, Structural, Hash)]
pub enum Direction {
    Received,
    Sent,
}

impl Direction {
    /// The label under which this direction is reported.
    pub fn label(&self) -> (r: &'static str)
        ensures
            *self == Direction::Received ==> r@ == "received"@,
            *self == Direction::Sent ==> r@ == "sent"@,
    {
        match self {
            Direction::Received => "received",
            Direction::Sent => "sent",
        }
    }
}

/// The byte is an ASCII decimal digit.
pub open spec fn is_digit(b: u8) -> bool {
    48 <= b && b <= 57
}

/// Every byte of `s` is an ASCII digit.
pub open spec fn all_digits(s: Seq<u8>) -> bool {
    forall|j: int| 0 <= j < s.len() ==> is_digit(#[trigger] s[j])
}

/// Length of the longest all-digit prefix of `s`.
pub open spec fn digit_prefix_len(s: Seq<u8>) -> nat
    decreases s.len(),
{
    if s.len() == 0 || !is_digit(s[0]) {
        0
    } else {
        1 + digit_prefix_len(s.drop_first())
    }
}

/// Value of an all-digit sequence read as a decimal numeral.
pub open spec fn dec_value(s: Seq<u8>) -> int
    decreases s.len(),
{
    if s.len() == 0 {
        0
    } else {
        dec_value(s.drop_last()) * 10 + (s.last() - 48)
    }
}

/// Value of the longest all-digit prefix of `s`.  On a field that is all
/// digits — the only fields a scan accepts — this is the value of the
/// whole field; elsewhere it keeps the reading total and non-negative.
pub open spec fn dec_prefix_value(s: Seq<u8>) -> int {
    dec_value(s.take(digit_prefix_len(s) as int))
}

/// Ten to the `n`.
pub open spec fn pow10(n: nat) -> int
    decreases n,
{
    if n == 0 {
        1
    } else {
        10 * pow10((n - 1) as nat)
    }
}

pub proof fn lemma_digit_prefix_len_le(s: Seq<u8>)
    ensures
        digit_prefix_len(s) <= s.len(),
    decreases s.len(),
{
    if s.len() != 0 && is_digit(s[0]) {
        lemma_digit_prefix_len_le(s.drop_first());
    }
}

/// An all-digit numeral of `n` digits is below ten to the `n`.
pub proof fn lemma_dec_value_bound(s: Seq<u8>)
    requires
        forall|i: int| 0 <= i < s.len() ==> is_digit(#[trigger] s[i]),
    ensures
        0 <= dec_value(s) < pow10(s.len()),
    decreases s.len(),
{
    if s.len() != 0 {
        lemma_dec_value_bound(s.drop_last());
    }
}

/// Every byte of the digit prefix is a digit.
pub proof fn lemma_digit_prefix_digits(s: Seq<u8>)
    ensures
        forall|j: int| 0 <= j < digit_prefix_len(s) ==> is_digit(#[trigger] s[j]),
    decreases s.len(),
{
    if s.len() != 0 && is_digit(s[0]) {
        lemma_digit_prefix_len_le(s);
        lemma_digit_prefix_digits(s.drop_first());
        assert forall|j: int| 0 <= j < digit_prefix_len(s) implies is_digit(#[trigger] s[j]) by {
            if j > 0 {
                assert(0 <= j - 1 < digit_prefix_len(s.drop_first()));
                assert(is_digit(s.drop_first()[j - 1]));
                assert(s.drop_first()[j - 1] == s[j]);
            }
        }
    }
}

/// A decimal field never reads negative.
pub proof fn lemma_dec_prefix_value_nonneg(s: Seq<u8>)
    ensures
        dec_prefix_value(s) >= 0,
{
    lemma_digit_prefix_digits(s);
    lemma_digit_prefix_len_le(s);
    let p = s.take(digit_prefix_len(s) as int);
    assert(forall|j: int| 0 <= j < p.len() ==> is_digit(#[trigger] p[j]));
    lemma_dec_value_bound(p);
}

pub proof fn lemma_pow10_monotone(m: nat, n: nat)
    requires
        m <= n,
    ensures
        pow10(m) <= pow10(n),
    decreases n,
{
    if m < n {
        lemma_pow10_monotone(m, (n - 1) as nat);
        assert(pow10(n) == 10 * pow10((n - 1) as nat));
        assert(pow10(m) >= 1) by {
            lemma_pow10_positive(m);
        }
    }
}

pub proof fn lemma_pow10_positive(n: nat)
    ensures
        pow10(n) >= 1,
    decreases n,
{
    if n > 0 {
        lemma_pow10_positive((n - 1) as nat);
    }
}

/// Reads a fixed-width decimal field.  Returns `None` — a numeric parse
/// failure, fatal for the calling scan — unless every byte of `s` is an
/// ASCII digit.
pub fn parse_decimal_field(s: &[u8]) -> (r: Option<u64>)
    requires
        s@.len() <= 18,
    ensures
        r is Some <==> s@.len() > 0 && all_digits(s@),
        r matches Some(v) ==> v == dec_prefix_value(s@),
        r matches Some(v) ==> v < pow10(s@.len()),
{
    if s.len() == 0 {
        return None;
    }
    let mut acc: u64 = 0;
    let mut i: usize = 0;
    while i < s.len()
        invariant
            0 < s@.len() <= 18,
            0 <= i <= s@.len(),
            forall|j: int| 0 <= j < i ==> is_digit(#[trigger] s@[j]),
            acc == dec_value(s@.take(i as int)),
            acc < pow10(i as nat),
        decreases s@.len() - i,
    {
        if !(48 <= s[i] && s[i] <= 57) {
            assert(!all_digits(s@));
            return None;
        }
        proof {
            lemma_dec_value_bound(s@.take(i as int));
            lemma_pow10_monotone((i + 1) as nat, s@.len() as nat);
            lemma_pow10_le_u64_max(s@.len() as nat);
            assert(s@.take((i + 1) as int).drop_last() =~= s@.take(i as int));
        }
        acc = acc * 10 + ((s[i] - 48) as u64);
        i = i + 1;
    }
    proof {
        lemma_digit_prefix_len_stop(s@, s@.len() as int);
        assert(s@.take(s@.len() as int) =~= s@);
    }
    Some(acc)
}

/// Ten to any count of at most eighteen digits fits in `u64`.
proof fn lemma_pow10_le_u64_max(n: nat)
    requires
        n <= 18,
    ensures
        pow10(n) <= 0x0de0_b6b3_a764_0000,
{
    reveal_with_fuel(pow10, 19);
    lemma_pow10_monotone(n, 18);
}

/// The byte sequences a vector of lines holds.
pub open spec fn lines_view(lines: Seq<Vec<u8>>) -> Seq<Seq<u8>> {
    lines.map_values(|l: Vec<u8>| l@)
}

/// The data rows of a file: everything after the header line.
pub open spec fn data_lines(lines: Seq<Seq<u8>>) -> Seq<Seq<u8>> {
    if lines.len() == 0 {
        lines
    } else {
        lines.drop_first()
    }
}

/// The timestamp field: bytes 0..10.
pub open spec fn ts_field(l: Seq<u8>) -> Seq<u8> {
    l.subrange(0, 10)
}

/// The device identifier: bytes 11..26.
pub open spec fn device_field(l: Seq<u8>) -> Seq<u8> {
    l.subrange(11, 26)
}

/// The vendor identifier: the first six bytes of the device identifier.
pub open spec fn vendor_field(l: Seq<u8>) -> Seq<u8> {
    l.subrange(11, 17)
}

/// The access-point identifier: bytes 27..42.
pub open spec fn ap_field(l: Seq<u8>) -> Seq<u8> {
    l.subrange(27, 42)
}

/// The byte-count field: bytes 43..49.
pub open spec fn bytes_field(l: Seq<u8>) -> Seq<u8> {
    l.subrange(43, 49)
}

/// The timestamp field is present and all digits.
pub open spec fn ts_ok(l: Seq<u8>) -> bool {
    l.len() >= 10 && all_digits(ts_field(l))
}

/// The line's timestamp, in Unix epoch seconds.
pub open spec fn ts_of(l: Seq<u8>) -> int {
    dec_prefix_value(ts_field(l))
}

/// The byte-count field is present and all digits.
pub open spec fn bytes_ok(l: Seq<u8>) -> bool {
    l.len() >= 49 && all_digits(bytes_field(l))
}

/// The line's transferred byte count.
pub open spec fn bytes_of(l: Seq<u8>) -> int {
    dec_prefix_value(bytes_field(l))
}

/// The direction token marks an upload (device to network).
pub open spec fn is_upload(l: Seq<u8>) -> bool {
    l[50] == 117
}

/// The direction under which the line's traffic is recorded: an upload is
/// received by the network, everything else is sent to the device.
pub open spec fn dir_of(l: Seq<u8>) -> Direction {
    if is_upload(l) {
        Direction::Received
    } else {
        Direction::Sent
    }
}

/// Copies the field at byte range `a..b` out of a line.
pub fn copy_field(line: &Vec<u8>, a: usize, b: usize) -> (r: Vec<u8>)
    requires
        a <= b <= line@.len(),
    ensures
        r@ == line@.subrange(a as int, b as int),
{
    let mut r: Vec<u8> = Vec::new();
    let mut i: usize = a;
    while i < b
        invariant
            a <= i <= b <= line@.len(),
            r@ == line@.subrange(a as int, i as int),
        decreases b - i,
    {
        r.push(line[i]);
        proof {
            assert(r@ =~= line@.subrange(a as int, (i + 1) as int));
        }
        i = i + 1;
    }
    r
}

/// Two byte strings hold the same bytes.
pub fn bytes_eq(a: &[u8], b: &[u8]) -> (r: bool)
    ensures
        r == (a@ == b@),
{
    if a.len() != b.len() {
        assert(a@.len() != b@.len());
        return false;
    }
    let mut i: usize = 0;
    while i < a.len()
        invariant
            a@.len() == b@.len(),
            0 <= i <= a@.len(),
            forall|j: int| 0 <= j < i ==> a@[j] == b@[j],
        decreases a@.len() - i,
    {
        if a[i] != b[i] {
            return false;
        }
        i = i + 1;
    }
    proof {
        assert(a@ =~= b@);
    }
    true
}

/// Reads the timestamp field.  `None` marks a numeric parse failure.
pub fn parse_ts(line: &Vec<u8>) -> (r: Option<u64>)
    requires
        line@.len() >= 10,
    ensures
        r is Some <==> ts_ok(line@),
        r matches Some(v) ==> v == ts_of(line@) && v <= 9_999_999_999,
{
    let field = copy_field(line, 0, 10);
    let r = parse_decimal_field(field.as_slice());
    proof {
        reveal_with_fuel(pow10, 11);
    }
    r
}

/// Reads the byte-count field.  `None` marks a numeric parse failure.
pub fn parse_byte_count(line: &Vec<u8>) -> (r: Option<u64>)
    requires
        line@.len() >= 49,
    ensures
        r is Some <==> bytes_ok(line@),
        r matches Some(v) ==> v == bytes_of(line@) && v <= 999_999,
{
    let field = copy_field(line, 43, 49);
    let r = parse_decimal_field(field.as_slice());
    proof {
        reveal_with_fuel(pow10, 7);
    }
    r
}

/// Reads the direction token.
pub fn parse_direction(line: &Vec<u8>) -> (r: Direction)
    requires
        line@.len() >= 51,
    ensures
        r == dir_of(line@),
{
    if line[50] == 117 {
        Direction::Received
    } else {
        Direction::Sent
    }
}

/// If the first `i` bytes are digits and byte `i` (if any) is none, the
/// digit prefix is exactly `i` bytes long.
proof fn lemma_digit_prefix_len_stop(s: Seq<u8>, i: int)
    requires
        0 <= i <= s.len(),
        forall|j: int| 0 <= j < i ==> is_digit(#[trigger] s[j]),
        i < s.len() ==> !is_digit(s[i]),
    ensures
        digit_prefix_len(s) == i,
    decreases i,
{
    if i > 0 {
        lemma_digit_prefix_len_stop(s.drop_first(), i - 1);
    }
}

} // verus!
