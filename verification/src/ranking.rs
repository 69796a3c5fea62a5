//! The top-vendor ranking scanner.
//!
//! One pass over the log counts, per hardware vendor, the distinct
//! devices that appear: a device identifier is counted on its first
//! sight only, under the vendor its first six bytes resolve to in the
//! vendor table.  The counts are then ordered by descending count — a
//! stable order, so vendors with equal counts keep the order of their
//! first encounter — and cut to the top ten.  A line too short for the
//! device field, or a first-seen device whose vendor the table does not
//! know, aborts the scan.

use vstd::prelude::*;

use crate::record::{bytes_eq, copy_field, data_lines, device_field, lines_view, vendor_field};
use crate::seen::SeenSet;
use crate::vendor::VendorTable;
use crate::LogError;

verus! {

/// The ranking scan can read the device field from the line.
pub open spec fn rank_line_ok(l: Seq<u8>) -> bool {
    l.len() >= 26
}

/// The device identifiers of `rows`, in order of first sight, each once.
pub open spec fn distinct_devices(rows: Seq<Seq<u8>>) -> Seq<Seq<u8>>
    decreases rows.len(),
{
    if rows.len() == 0 {
        Seq::empty()
    } else {
        let prev = distinct_devices(rows.drop_last());
        if prev.contains(device_field(rows.last())) {
            prev
        } else {
            prev.push(device_field(rows.last()))
        }
    }
}

/// A device identifier is listed exactly when some row carries it.
pub proof fn lemma_distinct_devices_contains(rows: Seq<Seq<u8>>, d: Seq<u8>)
    ensures
        distinct_devices(rows).contains(d) <==> exists|j: int|
            0 <= j < rows.len() && device_field(#[trigger] rows[j]) == d,
    decreases rows.len(),
{
    if rows.len() > 0 {
        lemma_distinct_devices_contains(rows.drop_last(), d);
        let prev = distinct_devices(rows.drop_last());
        if distinct_devices(rows).contains(d) {
            if prev.contains(d) || device_field(rows.last()) == d {
                if device_field(rows.last()) == d {
                    assert(device_field(rows[rows.len() - 1]) == d);
                } else {
                    let j = choose|j: int|
                        0 <= j < rows.len() - 1 && device_field(#[trigger] rows.drop_last()[j])
                            == d;
                    assert(device_field(rows[j]) == d);
                }
            }
        }
        if exists|j: int| 0 <= j < rows.len() && device_field(#[trigger] rows[j]) == d {
            let j = choose|j: int| 0 <= j < rows.len() && device_field(#[trigger] rows[j]) == d;
            if j < rows.len() - 1 {
                assert(device_field(rows.drop_last()[j]) == d);
                if !prev.contains(device_field(rows.last())) {
                    assert(distinct_devices(rows) == prev.push(device_field(rows.last())));
                    assert(prev.contains(d));
                    let k = choose|k: int| 0 <= k < prev.len() && prev[k] == d;
                    assert(distinct_devices(rows)[k] == d);
                }
            } else {
                assert(device_field(rows.last()) == d);
                if !prev.contains(d) {
                    let s2 = distinct_devices(rows);
                    assert(s2[s2.len() - 1] == d);
                }
            }
        }
    }
}

/// No device identifier is listed twice.
pub proof fn lemma_distinct_devices_no_dup(rows: Seq<Seq<u8>>)
    ensures
        forall|i: int, j: int|
            0 <= i < j < distinct_devices(rows).len() ==> distinct_devices(rows)[i]
                != distinct_devices(rows)[j],
    decreases rows.len(),
{
    if rows.len() > 0 {
        lemma_distinct_devices_no_dup(rows.drop_last());
        let prev = distinct_devices(rows.drop_last());
        let s2 = distinct_devices(rows);
        if !prev.contains(device_field(rows.last())) {
            assert forall|i: int, j: int| 0 <= i < j < s2.len() implies s2[i] != s2[j] by {
                if j == s2.len() - 1 {
                    assert(prev[i] == s2[i]);
                    if s2[i] == s2[j] {
                        assert(prev.contains(s2[j]));
                    }
                } else {
                    assert(prev[i] == s2[i] && prev[j] == s2[j]);
                }
            }
        }
    }
}

/// The listed devices never outnumber the rows.
pub proof fn lemma_distinct_devices_len(rows: Seq<Seq<u8>>)
    ensures
        distinct_devices(rows).len() <= rows.len(),
    decreases rows.len(),
{
    if rows.len() > 0 {
        lemma_distinct_devices_len(rows.drop_last());
    }
}

/// Some entry of the counts list carries the vendor name `v`.
pub open spec fn has_name(cs: Seq<(Seq<char>, int)>, v: Seq<char>) -> bool {
    exists|i: int| 0 <= i < cs.len() && cs[i].0 == v
}

/// Index of an entry carrying the vendor name `v`.
pub open spec fn name_pos(cs: Seq<(Seq<char>, int)>, v: Seq<char>) -> int {
    choose|i: int| 0 <= i < cs.len() && cs[i].0 == v
}

/// No vendor name is listed twice.
pub open spec fn names_unique(cs: Seq<(Seq<char>, int)>) -> bool {
    forall|i: int, j: int| 0 <= i < j < cs.len() ==> cs[i].0 != cs[j].0
}

/// Every count is at least one.
pub open spec fn counts_positive(cs: Seq<(Seq<char>, int)>) -> bool {
    forall|i: int| 0 <= i < cs.len() ==> #[trigger] cs[i].1 >= 1
}

/// One more device of vendor `v`: its count grows by one, or a new entry
/// opens at the end with count one.
pub open spec fn bump(cs: Seq<(Seq<char>, int)>, v: Seq<char>) -> Seq<(Seq<char>, int)> {
    if has_name(cs, v) {
        let i = name_pos(cs, v);
        cs.update(i, (v, cs[i].1 + 1))
    } else {
        cs.push((v, 1))
    }
}

/// The per-vendor counts of a device list: each device bumps the vendor
/// its identifier's first six bytes resolve to, in order, so a vendor's
/// entry opens when its first device appears.
pub open spec fn vendor_counts(devs: Seq<Seq<u8>>, m: Map<Seq<u8>, Seq<char>>) -> Seq<
    (Seq<char>, int),
>
    decreases devs.len(),
{
    if devs.len() == 0 {
        Seq::empty()
    } else {
        bump(vendor_counts(devs.drop_last(), m), m[devs.last().subrange(0, 6)])
    }
}

/// Sum of all counts of the list.
pub open spec fn counts_sum(cs: Seq<(Seq<char>, int)>) -> int
    decreases cs.len(),
{
    if cs.len() == 0 {
        0
    } else {
        counts_sum(cs.drop_last()) + cs.last().1
    }
}

/// A sum changes by exactly the changed entry's change.
proof fn lemma_counts_sum_update(cs: Seq<(Seq<char>, int)>, i: int, x: (Seq<char>, int))
    requires
        0 <= i < cs.len(),
    ensures
        counts_sum(cs.update(i, x)) == counts_sum(cs) - cs[i].1 + x.1,
    decreases cs.len(),
{
    let cs2 = cs.update(i, x);
    if i == cs.len() - 1 {
        assert(cs2.drop_last() =~= cs.drop_last());
        assert(cs2.last() == x);
    } else {
        lemma_counts_sum_update(cs.drop_last(), i, x);
        assert(cs2.drop_last() =~= cs.drop_last().update(i, x));
        assert(cs2.last() == cs.last());
    }
}

/// Bumping a vendor raises the sum by one.
proof fn lemma_bump_sum(cs: Seq<(Seq<char>, int)>, v: Seq<char>)
    ensures
        counts_sum(bump(cs, v)) == counts_sum(cs) + 1,
{
    if has_name(cs, v) {
        let i = name_pos(cs, v);
        assert(0 <= i < cs.len() && cs[i].0 == v);
        lemma_counts_sum_update(cs, i, (v, cs[i].1 + 1));
    } else {
        assert(bump(cs, v).drop_last() =~= cs);
    }
}

/// Bumping keeps names unique and counts positive.
proof fn lemma_bump_wf(cs: Seq<(Seq<char>, int)>, v: Seq<char>)
    requires
        names_unique(cs),
        counts_positive(cs),
    ensures
        names_unique(bump(cs, v)),
        counts_positive(bump(cs, v)),
        has_name(bump(cs, v), v),
{
    let cs2 = bump(cs, v);
    if has_name(cs, v) {
        let i = name_pos(cs, v);
        assert(0 <= i < cs.len() && cs[i].0 == v);
        assert forall|a: int, b: int| 0 <= a < b < cs2.len() implies cs2[a].0 != cs2[b].0 by {
            assert(cs2[a].0 == cs[a].0 && cs2[b].0 == cs[b].0);
        }
        assert(cs2[i].0 == v);
    } else {
        assert forall|a: int, b: int| 0 <= a < b < cs2.len() implies cs2[a].0 != cs2[b].0 by {
            if b == cs2.len() - 1 {
                if cs2[a].0 == v {
                    assert(cs[a].0 == v);
                    assert(has_name(cs, v));
                }
            }
        }
        assert(cs2[cs2.len() - 1].0 == v);
    }
}

/// The counts of a device list are well formed.
proof fn lemma_vendor_counts_wf(devs: Seq<Seq<u8>>, m: Map<Seq<u8>, Seq<char>>)
    ensures
        names_unique(vendor_counts(devs, m)),
        counts_positive(vendor_counts(devs, m)),
    decreases devs.len(),
{
    if devs.len() > 0 {
        lemma_vendor_counts_wf(devs.drop_last(), m);
        lemma_bump_wf(vendor_counts(devs.drop_last(), m), m[devs.last().subrange(0, 6)]);
    }
}

/// The dedup invariant: the counts of a device list sum to the number of
/// its devices — each distinct device is counted exactly once, under
/// exactly one vendor.
pub proof fn lemma_dedup_invariant(devs: Seq<Seq<u8>>, m: Map<Seq<u8>, Seq<char>>)
    ensures
        counts_sum(vendor_counts(devs, m)) == devs.len(),
    decreases devs.len(),
{
    if devs.len() > 0 {
        lemma_dedup_invariant(devs.drop_last(), m);
        lemma_bump_sum(vendor_counts(devs.drop_last(), m), m[devs.last().subrange(0, 6)]);
    }
}

/// No single count exceeds the sum of a well-formed list.
proof fn lemma_count_le_sum(cs: Seq<(Seq<char>, int)>, i: int)
    requires
        counts_positive(cs),
        0 <= i < cs.len(),
    ensures
        cs[i].1 <= counts_sum(cs),
    decreases cs.len(),
{
    if i == cs.len() - 1 {
        lemma_counts_sum_nonneg(cs.drop_last());
    } else {
        lemma_count_le_sum(cs.drop_last(), i);
        assert(cs.drop_last()[i] == cs[i]);
    }
}

/// The mathematical reading of an owned counts list.
pub open spec fn pairs_view(s: Seq<(String, u64)>) -> Seq<(Seq<char>, int)> {
    s.map_values(|p: (String, u64)| (p.0@, p.1 as int))
}

/// `x` placed into `s` after every entry counting at least `x.1`, before
/// the rest: the insertion step of a stable descending sort.
pub open spec fn insert_desc(s: Seq<(Seq<char>, int)>, x: (Seq<char>, int)) -> Seq<
    (Seq<char>, int),
>
    decreases s.len(),
{
    if s.len() == 0 {
        seq![x]
    } else if s.first().1 >= x.1 {
        seq![s.first()] + insert_desc(s.drop_first(), x)
    } else {
        seq![x] + s
    }
}

/// `s` stably sorted by descending count: entries are taken in order and
/// each is placed after all entries counting at least as much, so equal
/// counts keep their relative order.
pub open spec fn sort_desc(s: Seq<(Seq<char>, int)>) -> Seq<(Seq<char>, int)>
    decreases s.len(),
{
    if s.len() == 0 {
        s
    } else {
        insert_desc(sort_desc(s.drop_last()), s.last())
    }
}

/// The ranking the scan reports: the per-vendor counts of the distinct
/// devices, stably sorted by descending count, cut to the top ten.
pub open spec fn top_ranking(rows: Seq<Seq<u8>>, m: Map<Seq<u8>, Seq<char>>) -> Seq<
    (Seq<char>, int),
> {
    let sorted = sort_desc(vendor_counts(distinct_devices(rows), m));
    if sorted.len() <= 10 {
        sorted
    } else {
        sorted.take(10)
    }
}

/// No earlier row carries row `i`'s device identifier.
pub open spec fn first_sight(rows: Seq<Seq<u8>>, i: int) -> bool {
    !exists|j: int| 0 <= j < i && device_field(#[trigger] rows[j]) == device_field(rows[i])
}

/// Row `i` aborts the ranking scan: it is too short for the device
/// field, or it first introduces a device whose vendor the table does
/// not know.
pub open spec fn rank_line_fails(rows: Seq<Seq<u8>>, i: int, m: Map<Seq<u8>, Seq<char>>) -> bool {
    !rank_line_ok(rows[i]) || (first_sight(rows, i) && !m.dom().contains(vendor_field(rows[i])))
}

/// Index of the first row at or after `i` that aborts the scan.
pub open spec fn rank_fail_from(rows: Seq<Seq<u8>>, m: Map<Seq<u8>, Seq<char>>, i: int) -> Option<
    int,
>
    decreases rows.len() - i,
{
    if i < 0 || i >= rows.len() {
        None
    } else if rank_line_fails(rows, i, m) {
        Some(i)
    } else {
        rank_fail_from(rows, m, i + 1)
    }
}

/// Index of the first row that aborts the ranking scan, if any.
pub open spec fn rank_err(rows: Seq<Seq<u8>>, m: Map<Seq<u8>, Seq<char>>) -> Option<int> {
    rank_fail_from(rows, m, 0)
}

/// If no row before `k` aborts and row `k` does, the scan stops at `k`.
proof fn lemma_rank_fail_first(rows: Seq<Seq<u8>>, m: Map<Seq<u8>, Seq<char>>, a: int, k: int)
    requires
        0 <= a <= k < rows.len(),
        forall|j: int| a <= j < k ==> !rank_line_fails(rows, j, m),
        rank_line_fails(rows, k, m),
    ensures
        rank_fail_from(rows, m, a) == Some(k),
    decreases k - a,
{
    if a < k {
        lemma_rank_fail_first(rows, m, a + 1, k);
    }
}

/// If no row at or after `a` aborts, the scan runs through.
proof fn lemma_rank_fail_none(rows: Seq<Seq<u8>>, m: Map<Seq<u8>, Seq<char>>, a: int)
    requires
        forall|j: int| a <= j < rows.len() ==> !rank_line_fails(rows, j, m),
    ensures
        rank_fail_from(rows, m, a) is None,
    decreases rows.len() - a,
{
    if 0 <= a < rows.len() {
        lemma_rank_fail_none(rows, m, a + 1);
    }
}

/// Where the first `p` entries count at least `x.1` and entry `p` (if
/// any) counts less, the insertion splits `s` exactly at `p`.
proof fn lemma_insert_desc_at(s: Seq<(Seq<char>, int)>, x: (Seq<char>, int), p: int)
    requires
        0 <= p <= s.len(),
        forall|k: int| 0 <= k < p ==> #[trigger] s[k].1 >= x.1,
        p < s.len() ==> s[p].1 < x.1,
    ensures
        insert_desc(s, x) == s.take(p) + seq![x] + s.skip(p),
    decreases s.len(),
{
    if s.len() == 0 {
        assert(insert_desc(s, x) =~= s.take(p) + seq![x] + s.skip(p));
    } else if s.first().1 >= x.1 {
        assert(p >= 1) by {
            assert(s[0].1 >= x.1);
        }
        assert forall|k: int| 0 <= k < p - 1 implies #[trigger] s.drop_first()[k].1 >= x.1 by {
            assert(s.drop_first()[k] == s[k + 1]);
        }
        if p - 1 < s.drop_first().len() {
            assert(s.drop_first()[p - 1] == s[p]);
        }
        lemma_insert_desc_at(s.drop_first(), x, p - 1);
        assert(seq![s.first()] + (s.drop_first().take(p - 1) + seq![x] + s.drop_first().skip(p - 1))
            =~= s.take(p) + seq![x] + s.skip(p));
    } else {
        assert(p == 0) by {
            if p > 0 {
                assert(s[0].1 >= x.1);
            }
        }
        assert(seq![x] + s =~= s.take(0) + seq![x] + s.skip(0));
    }
}

/// Counts one more device of the vendor named `name`.
fn bump_counts(counts: &mut Vec<(String, u64)>, name: &String)
    requires
        names_unique(pairs_view(old(counts)@)),
        counts_positive(pairs_view(old(counts)@)),
        counts_sum(pairs_view(old(counts)@)) < u64::MAX,
    ensures
        pairs_view(final(counts)@) == bump(pairs_view(old(counts)@), name@),
{
    let ghost cs = pairs_view(counts@);
    let mut i: usize = 0;
    while i < counts.len()
        invariant
            0 <= i <= counts@.len(),
            counts == old(counts),
            cs == pairs_view(counts@),
            names_unique(cs),
            counts_positive(cs),
            counts_sum(cs) < u64::MAX,
            forall|j: int| 0 <= j < i ==> #[trigger] cs[j].0 != name@,
        decreases counts@.len() - i,
    {
        if counts[i].0 == *name {
            proof {
                assert(cs[i as int].0 == name@);
                assert(has_name(cs, name@));
                assert(name_pos(cs, name@) == i as int) by {
                    let w = name_pos(cs, name@);
                    assert(0 <= w < cs.len() && cs[w].0 == name@);
                }
                lemma_count_le_sum(cs, i as int);
            }
            let c = counts[i].1;
            let new_name = counts[i].0.clone();
            counts.set(i, (new_name, c + 1));
            proof {
                assert(pairs_view(counts@) =~= cs.update(i as int, (name@, cs[i as int].1 + 1)));
            }
            return;
        }
        i = i + 1;
    }
    proof {
        assert(!has_name(cs, name@));
    }
    counts.push((name.clone(), 1));
    proof {
        assert(pairs_view(counts@) =~= cs.push((name@, 1)));
    }
}

/// Orders a counts list by descending count, stably: entries counting
/// alike keep their relative order.
fn sort_counts(v: &Vec<(String, u64)>) -> (r: Vec<(String, u64)>)
    ensures
        pairs_view(r@) == sort_desc(pairs_view(v@)),
{
    let mut r: Vec<(String, u64)> = Vec::new();
    let mut idx: usize = 0;
    proof {
        assert(pairs_view(v@.take(0)) =~= Seq::<(Seq<char>, int)>::empty());
    }
    while idx < v.len()
        invariant
            0 <= idx <= v@.len(),
            pairs_view(r@) == sort_desc(pairs_view(v@.take(idx as int))),
        decreases v@.len() - idx,
    {
        let name = v[idx].0.clone();
        let c = v[idx].1;
        let ghost rs = pairs_view(r@);
        let ghost x = (name@, c as int);
        let mut p: usize = 0;
        while p < r.len() && r[p].1 >= c
            invariant
                0 <= p <= r@.len(),
                rs == pairs_view(r@),
                forall|k: int| 0 <= k < p ==> #[trigger] rs[k].1 >= c as int,
            decreases r@.len() - p,
        {
            proof {
                assert(rs[p as int].1 == r@[p as int].1 as int);
            }
            p = p + 1;
        }
        proof {
            if (p as int) < rs.len() {
                assert(rs[p as int].1 == r@[p as int].1 as int);
            }
            lemma_insert_desc_at(rs, x, p as int);
        }
        r.insert(p, (name, c));
        proof {
            assert(pairs_view(r@) =~= rs.take(p as int) + seq![x] + rs.skip(p as int));
            assert(pairs_view(v@.take(idx + 1)).drop_last() =~= pairs_view(v@.take(idx as int)));
            assert(pairs_view(v@.take(idx + 1)).last() == x);
            assert(pairs_view(r@) == sort_desc(pairs_view(v@.take(idx + 1))));
        }
        idx = idx + 1;
    }
    proof {
        assert(v@.take(v@.len() as int) =~= v@);
    }
    r
}

/// The top-vendor ranking scan over the log's lines (header included):
/// counts each distinct device once under its vendor, orders vendors by
/// descending count — ties keep first-encounter order — and reports at
/// most the top ten as `(vendor name, count)` pairs.  Aborts on the
/// first row too short for the device field, or whose first-seen
/// device's vendor the table does not know, naming that vendor.
pub fn top_vendors(lines: &Vec<Vec<u8>>, table: &VendorTable) -> (r: Result<
    Vec<(String, u64)>,
    LogError,
>)
    requires
        table.wf(),
    ensures
        ({
            let rows = data_lines(lines_view(lines@));
            let m = table@;
            &&& (r is Ok <==> rank_err(rows, m) is None)
            &&& (r matches Ok(v) ==> pairs_view(v@) == top_ranking(rows, m))
            &&& (r matches Err(e) ==> rank_err(rows, m) matches Some(i) && (if !rank_line_ok(
                rows[i],
            ) {
                e == LogError::ShortLine
            } else {
                e matches LogError::UnknownVendor(vb) && vb@ == vendor_field(rows[i])
            }))
        }),
{
    let ghost rows = data_lines(lines_view(lines@));
    let ghost m = table@;
    if lines.len() == 0 {
        proof {
            assert(rows.len() == 0);
            let cs = vendor_counts(distinct_devices(rows), m);
            assert(pairs_view(Seq::<(String, u64)>::empty()) =~= Seq::<(Seq<char>, int)>::empty());
        }
        return Ok(Vec::new());
    }
    proof {
        assert(rows.len() == lines@.len() - 1);
        assert(forall|j: int| 0 <= j < rows.len() ==> rows[j] == #[trigger] lines@[j + 1]@);
    }
    let mut seen = SeenSet::new();
    let mut counts: Vec<(String, u64)> = Vec::new();
    let mut i: usize = 1;
    proof {
        assert(pairs_view(counts@) =~= Seq::<(Seq<char>, int)>::empty());
        assert(distinct_devices(rows.take(0)) =~= Seq::<Seq<u8>>::empty());
    }
    while i < lines.len()
        invariant
            1 <= i <= lines@.len(),
            lines@.len() >= 1,
            rows == data_lines(lines_view(lines@)),
            m == table@,
            table.wf(),
            rows.len() == lines@.len() - 1,
            forall|j: int| 0 <= j < rows.len() ==> rows[j] == #[trigger] lines@[j + 1]@,
            forall|j: int| 0 <= j < i - 1 ==> !rank_line_fails(rows, j, m),
            forall|d: Seq<u8>|
                seen@.contains(d) <==> exists|j: int|
                    0 <= j < i - 1 && device_field(#[trigger] rows[j]) == d,
            pairs_view(counts@) == vendor_counts(distinct_devices(rows.take(i - 1)), m),
        decreases lines@.len() - i,
    {
        let line = &lines[i];
        proof {
            assert(rows[i - 1] == line@);
        }
        if line.len() < 26 {
            proof {
                assert(rank_line_fails(rows, i - 1, m));
                lemma_rank_fail_first(rows, m, 0, i - 1);
            }
            return Err(LogError::ShortLine);
        }
        let device = copy_field(line, 11, 26);
        proof {
            assert(device@ == device_field(rows[i - 1]));
        }
        let fresh = seen.check_insert(device);
        proof {
            assert(fresh == first_sight(rows, i - 1));
        }
        if fresh {
            let vendor = copy_field(line, 11, 17);
            proof {
                assert(vendor@ == vendor_field(rows[i - 1]));
            }
            match table.lookup(vendor.as_slice()) {
                None => {
                    proof {
                        assert(rank_line_fails(rows, i - 1, m));
                        lemma_rank_fail_first(rows, m, 0, i - 1);
                    }
                    return Err(LogError::UnknownVendor(vendor));
                },
                Some(name) => {
                    let vendor_name = name.clone();
                    proof {
                        assert(vendor_name@ == m[vendor_field(rows[i - 1])]);
                        let prev = distinct_devices(rows.take(i - 1));
                        lemma_distinct_devices_contains(rows.take(i - 1), device@);
                        assert(forall|j: int|
                            0 <= j < i - 1 ==> rows.take(i - 1)[j] == #[trigger] rows[j]);
                        assert(!prev.contains(device@));
                        assert(rows.take(i as int).drop_last() =~= rows.take(i - 1));
                        assert(device_field(rows.take(i as int).last()) == device@);
                        assert(distinct_devices(rows.take(i as int)) == prev.push(device@));
                        assert(device@.subrange(0, 6) =~= vendor_field(rows[i - 1]));
                        let devs2 = distinct_devices(rows.take(i as int));
                        assert(devs2.drop_last() =~= prev);
                        assert(vendor_counts(devs2, m) == bump(
                            vendor_counts(prev, m),
                            m[vendor_field(rows[i - 1])],
                        ));
                        lemma_vendor_counts_wf(prev, m);
                        lemma_dedup_invariant(prev, m);
                        lemma_distinct_devices_len(rows.take(i - 1));
                        assert(counts_sum(pairs_view(counts@)) < u64::MAX);
                        assert(!rank_line_fails(rows, i - 1, m));
                    }
                    bump_counts(&mut counts, &vendor_name);
                },
            }
        } else {
            proof {
                let prev = distinct_devices(rows.take(i - 1));
                lemma_distinct_devices_contains(rows.take(i - 1), device@);
                assert(forall|j: int|
                    0 <= j < i - 1 ==> rows.take(i - 1)[j] == #[trigger] rows[j]);
                assert(prev.contains(device@));
                assert(rows.take(i as int).drop_last() =~= rows.take(i - 1));
                assert(device_field(rows.take(i as int).last()) == device@);
                assert(distinct_devices(rows.take(i as int)) == prev);
                assert(!rank_line_fails(rows, i - 1, m));
            }
        }
        proof {
            assert forall|d: Seq<u8>|
                seen@.contains(d) <==> exists|j: int|
                    0 <= j < i && device_field(#[trigger] rows[j]) == d by {
                if seen@.contains(d) {
                    if d != device_field(rows[i - 1]) {
                        let j = choose|j: int|
                            0 <= j < i - 1 && device_field(#[trigger] rows[j]) == d;
                        assert(device_field(rows[j]) == d);
                    } else {
                        assert(device_field(rows[i - 1]) == d);
                    }
                }
            }
        }
        i = i + 1;
    }
    proof {
        assert(rows.take(i - 1) =~= rows);
        lemma_rank_fail_none(rows, m, 0);
    }
    let mut result = sort_counts(&counts);
    if result.len() > 10 {
        let ghost full = pairs_view(result@);
        result.truncate(10);
        proof {
            assert(pairs_view(result@) =~= full.take(10));
        }
    }
    Ok(result)
}

/// Counts never grow along the list.
pub open spec fn sorted_desc(s: Seq<(Seq<char>, int)>) -> bool {
    forall|i: int, j: int| 0 <= i <= j < s.len() ==> s[i].1 >= s[j].1
}

/// How many leading entries of `s` count at least `c`.
spec fn split_point(s: Seq<(Seq<char>, int)>, c: int) -> int
    decreases s.len(),
{
    if s.len() == 0 {
        0
    } else if s.first().1 >= c {
        1 + split_point(s.drop_first(), c)
    } else {
        0
    }
}

/// In a descending list, the split point separates the entries counting
/// at least `c` from the rest.
proof fn lemma_split_point(s: Seq<(Seq<char>, int)>, c: int)
    requires
        sorted_desc(s),
    ensures
        0 <= split_point(s, c) <= s.len(),
        forall|k: int| 0 <= k < split_point(s, c) ==> #[trigger] s[k].1 >= c,
        split_point(s, c) < s.len() ==> s[split_point(s, c)].1 < c,
    decreases s.len(),
{
    if s.len() > 0 && s.first().1 >= c {
        assert(sorted_desc(s.drop_first())) by {
            assert forall|i: int, j: int| 0 <= i <= j < s.drop_first().len() implies s.drop_first()[i].1
                >= s.drop_first()[j].1 by {
                assert(s.drop_first()[i] == s[i + 1]);
                assert(s.drop_first()[j] == s[j + 1]);
            }
        }
        lemma_split_point(s.drop_first(), c);
        assert forall|k: int| 0 <= k < split_point(s, c) implies #[trigger] s[k].1 >= c by {
            if k > 0 {
                assert(s.drop_first()[k - 1].1 >= c);
                assert(s.drop_first()[k - 1] == s[k]);
            }
        }
        if split_point(s, c) < s.len() {
            assert(s.drop_first()[split_point(s.drop_first(), c)] == s[split_point(s, c)]);
        }
    }
}

/// Inserting into a descending list keeps it descending.
proof fn lemma_insert_desc_sorted(s: Seq<(Seq<char>, int)>, x: (Seq<char>, int))
    requires
        sorted_desc(s),
    ensures
        sorted_desc(insert_desc(s, x)),
{
    lemma_split_point(s, x.1);
    let p = split_point(s, x.1);
    lemma_insert_desc_at(s, x, p);
    let r = insert_desc(s, x);
    assert forall|i: int, j: int| 0 <= i <= j < r.len() implies r[i].1 >= r[j].1 by {
        assert(forall|k: int| 0 <= k < p ==> r[k] == s[k]);
        assert(r[p] == x);
        assert(forall|k: int| p < k < r.len() ==> r[k] == s[k - 1]);
    }
}

/// The ranking's order: a stably descending sort leaves the counts
/// non-increasing from the first entry to the last.
pub proof fn lemma_sort_desc_sorted(s: Seq<(Seq<char>, int)>)
    ensures
        sorted_desc(sort_desc(s)),
    decreases s.len(),
{
    if s.len() > 0 {
        lemma_sort_desc_sorted(s.drop_last());
        lemma_insert_desc_sorted(sort_desc(s.drop_last()), s.last());
    }
}

/// The ranking's tie order: sorting is stable, so of two entries with
/// equal counts the one listed earlier — for vendor counts, the vendor
/// first encountered in the log — stays first.  Each sorted entry is an
/// entry of the list, under its own name.
pub proof fn lemma_sort_desc_stable(s: Seq<(Seq<char>, int)>)
    requires
        names_unique(s),
    ensures
        sort_desc(s).len() == s.len(),
        names_unique(sort_desc(s)),
        forall|k: int|
            0 <= k < s.len() ==> has_name(s, #[trigger] sort_desc(s)[k].0) && s[name_pos(
                s,
                sort_desc(s)[k].0,
            )] == sort_desc(s)[k],
        forall|i: int, j: int|
            0 <= i < j < s.len() && sort_desc(s)[i].1 == sort_desc(s)[j].1 ==> name_pos(
                s,
                #[trigger] sort_desc(s)[i].0,
            ) < name_pos(s, #[trigger] sort_desc(s)[j].0),
    decreases s.len(),
{
    if s.len() == 0 {
        return;
    }
    let prefix = s.drop_last();
    let x = s.last();
    assert(names_unique(prefix)) by {
        assert(forall|i: int| 0 <= i < prefix.len() ==> prefix[i] == s[i]);
    }
    lemma_sort_desc_stable(prefix);
    lemma_sort_desc_sorted(prefix);
    let ps = sort_desc(prefix);
    lemma_split_point(ps, x.1);
    let p = split_point(ps, x.1);
    lemma_insert_desc_at(ps, x, p);
    let r = sort_desc(s);
    assert(r == insert_desc(ps, x));
    assert(r.len() == s.len());
    assert(forall|k: int| 0 <= k < p ==> r[k] == ps[k]);
    assert(r[p] == x);
    assert(forall|k: int| p < k < r.len() ==> r[k] == ps[k - 1]);

    // every name of the prefix keeps its position in `s`, and `x`'s name
    // is new and sits at the end
    assert(!has_name(prefix, x.0)) by {
        if has_name(prefix, x.0) {
            let w = choose|w: int| 0 <= w < prefix.len() && prefix[w].0 == x.0;
            assert(s[w].0 == s[s.len() - 1].0);
        }
    }
    assert forall|v: Seq<char>| #[trigger] has_name(prefix, v) implies has_name(s, v) && name_pos(
        s,
        v,
    ) == name_pos(prefix, v) && name_pos(s, v) < s.len() - 1 by {
        let w = name_pos(prefix, v);
        assert(0 <= w < prefix.len() && prefix[w].0 == v);
        assert(s[w].0 == v);
        assert(has_name(s, v));
        let w2 = name_pos(s, v);
        assert(0 <= w2 < s.len() && s[w2].0 == v);
        if w2 == s.len() - 1 {
            assert(x.0 == v);
            assert(has_name(prefix, x.0));
        }
        assert(prefix[w2].0 == v);
        assert(w2 == w);
    }
    assert(has_name(s, x.0));
    assert(name_pos(s, x.0) == s.len() - 1) by {
        let w2 = name_pos(s, x.0);
        assert(0 <= w2 < s.len() && s[w2].0 == x.0);
        if w2 < s.len() - 1 {
            assert(prefix[w2].0 == x.0);
            assert(has_name(prefix, x.0));
        }
    }

    // each sorted entry comes from `s` under its own name
    assert forall|k: int| 0 <= k < s.len() implies has_name(s, #[trigger] r[k].0) && s[name_pos(
        s,
        r[k].0,
    )] == r[k] by {
        if k == p {
            assert(r[k] == x);
            assert(s[name_pos(s, x.0)] == x);
        } else {
            let k2: int = if k < p {
                k
            } else {
                k - 1
            };
            assert(r[k] == ps[k2]);
            assert(has_name(prefix, ps[k2].0) && prefix[name_pos(prefix, ps[k2].0)] == ps[k2]);
            assert(s[name_pos(prefix, ps[k2].0)] == prefix[name_pos(prefix, ps[k2].0)]);
        }
    }

    // names stay unique after sorting
    assert forall|i: int, j: int| 0 <= i < j < r.len() implies r[i].0 != r[j].0 by {
        if i == p || j == p {
            let k = if i == p {
                j
            } else {
                i
            };
            let k2: int = if k < p {
                k
            } else {
                k - 1
            };
            assert(r[k] == ps[k2]);
            if r[i].0 == r[j].0 {
                assert(ps[k2].0 == x.0);
                assert(has_name(prefix, ps[k2].0));
            }
        } else {
            let i2: int = if i < p {
                i
            } else {
                i - 1
            };
            let j2: int = if j < p {
                j
            } else {
                j - 1
            };
            assert(r[i] == ps[i2] && r[j] == ps[j2]);
            assert(i2 < j2);
        }
    }

    // ties keep the earlier-listed entry first
    assert forall|i: int, j: int|
        0 <= i < j < s.len() && r[i].1 == r[j].1 implies name_pos(s, #[trigger] r[i].0) < name_pos(
        s,
        #[trigger] r[j].0,
    ) by {
        if i == p {
            // everything after the inserted entry counts strictly less
            assert(r[j] == ps[j - 1]);
            assert(ps[j - 1].1 < x.1);
        } else if j == p {
            assert(r[i] == ps[i]);
            assert(has_name(prefix, ps[i].0));
            assert(name_pos(s, r[i].0) < s.len() - 1);
            assert(name_pos(s, x.0) == s.len() - 1);
        } else {
            let i2: int = if i < p {
                i
            } else {
                i - 1
            };
            let j2: int = if j < p {
                j
            } else {
                j - 1
            };
            assert(r[i] == ps[i2] && r[j] == ps[j2]);
            assert(i2 < j2);
            assert(name_pos(prefix, ps[i2].0) < name_pos(prefix, ps[j2].0));
            assert(has_name(prefix, ps[i2].0) && has_name(prefix, ps[j2].0));
        }
    }
}

/// The ranking-order law, at the scan's contract: the reported ranking
/// is non-increasing in its counts, every reported pair is a vendor's
/// true count, and of two vendors counting alike the one whose first
/// device came earlier in the log is reported first.
pub proof fn lemma_ranking_order(rows: Seq<Seq<u8>>, m: Map<Seq<u8>, Seq<char>>)
    ensures
        ({
            let cs = vendor_counts(distinct_devices(rows), m);
            let top = top_ranking(rows, m);
            &&& sorted_desc(top)
            &&& forall|k: int|
                0 <= k < top.len() ==> has_name(cs, #[trigger] top[k].0) && cs[name_pos(
                    cs,
                    top[k].0,
                )] == top[k]
            &&& forall|i: int, j: int|
                0 <= i < j < top.len() && top[i].1 == top[j].1 ==> name_pos(
                    cs,
                    #[trigger] top[i].0,
                ) < name_pos(cs, #[trigger] top[j].0)
        }),
{
    let cs = vendor_counts(distinct_devices(rows), m);
    let sorted = sort_desc(cs);
    let top = top_ranking(rows, m);
    lemma_vendor_counts_wf(distinct_devices(rows), m);
    lemma_sort_desc_sorted(cs);
    lemma_sort_desc_stable(cs);
    assert(forall|k: int| 0 <= k < top.len() ==> top[k] == sorted[k]);
}

/// A well-formed list's sum is not negative.
proof fn lemma_counts_sum_nonneg(cs: Seq<(Seq<char>, int)>)
    requires
        counts_positive(cs),
    ensures
        counts_sum(cs) >= 0,
    decreases cs.len(),
{
    if cs.len() > 0 {
        lemma_counts_sum_nonneg(cs.drop_last());
    }
}

} // verus!
