//! The building-change scanner.
//!
//! Given a target device and the access-point registry, one pass over
//! the log follows the buildings the device's access points stand in
//! and reports a human-readable timestamp each time the building
//! changes — transitions, not visits: consecutive rows in the same
//! building add nothing.  A row of the target device whose access
//! point the registry does not know is a fatal input error.

use vstd::prelude::*;

use crate::dates::{datetime_str_of, datetime_string};
use crate::record::{
    ap_field, bytes_eq, copy_field, data_lines, device_field, lines_view, parse_ts, ts_of, ts_ok,
};
use crate::registry::ApRegistry;
use crate::LogError;

verus! {

/// The scan can read the device field from the line.
pub open spec fn bld_line_ok(l: Seq<u8>) -> bool {
    l.len() >= 26
}

/// The row belongs to the target device.
pub open spec fn is_target(l: Seq<u8>, dev: Seq<u8>) -> bool {
    device_field(l) == dev
}

/// A target row carries every field the scan reads of it: the access
/// point, resolvable in the registry, and a parsable timestamp.
pub open spec fn target_row_ok(l: Seq<u8>, m: Map<Seq<u8>, Seq<u8>>) -> bool {
    l.len() >= 42 && m.dom().contains(ap_field(l)) && ts_ok(l)
}

/// The building transitions of the target device among the first `k`
/// rows: a `(timestamp, building)` pair for every target row whose
/// building differs from the previously reported one, the first target
/// row always reporting.
pub open spec fn change_events(rows: Seq<Seq<u8>>, k: int, m: Map<Seq<u8>, Seq<u8>>, dev: Seq<u8>) -> Seq<
    (int, Seq<u8>),
>
    decreases k,
{
    if k <= 0 {
        Seq::empty()
    } else {
        let prev = change_events(rows, k - 1, m, dev);
        let l = rows[k - 1];
        if is_target(l, dev) {
            if prev.len() == 0 || prev.last().1 != m[ap_field(l)] {
                prev.push((ts_of(l), m[ap_field(l)]))
            } else {
                prev
            }
        } else {
            prev
        }
    }
}

/// Row `i` aborts the scan: it is too short for the device field, or it
/// is a target row missing a field the scan reads.
pub open spec fn bld_line_fails(
    rows: Seq<Seq<u8>>,
    i: int,
    m: Map<Seq<u8>, Seq<u8>>,
    dev: Seq<u8>,
) -> bool {
    !bld_line_ok(rows[i]) || (is_target(rows[i], dev) && !target_row_ok(rows[i], m))
}

/// Index of the first row at or after `i` that aborts the scan.
pub open spec fn bld_fail_from(
    rows: Seq<Seq<u8>>,
    m: Map<Seq<u8>, Seq<u8>>,
    dev: Seq<u8>,
    i: int,
) -> Option<int>
    decreases rows.len() - i,
{
    if i < 0 || i >= rows.len() {
        None
    } else if bld_line_fails(rows, i, m, dev) {
        Some(i)
    } else {
        bld_fail_from(rows, m, dev, i + 1)
    }
}

/// If no row before `k` aborts and row `k` does, the scan stops at `k`.
proof fn lemma_bld_fail_first(
    rows: Seq<Seq<u8>>,
    m: Map<Seq<u8>, Seq<u8>>,
    dev: Seq<u8>,
    a: int,
    k: int,
)
    requires
        0 <= a <= k < rows.len(),
        forall|j: int| a <= j < k ==> !bld_line_fails(rows, j, m, dev),
        bld_line_fails(rows, k, m, dev),
    ensures
        bld_fail_from(rows, m, dev, a) == Some(k),
    decreases k - a,
{
    if a < k {
        lemma_bld_fail_first(rows, m, dev, a + 1, k);
    }
}

/// If no row at or after `a` aborts, the scan runs through.
proof fn lemma_bld_fail_none(rows: Seq<Seq<u8>>, m: Map<Seq<u8>, Seq<u8>>, dev: Seq<u8>, a: int)
    requires
        forall|j: int| a <= j < rows.len() ==> !bld_line_fails(rows, j, m, dev),
    ensures
        bld_fail_from(rows, m, dev, a) is None,
    decreases rows.len() - a,
{
    if 0 <= a < rows.len() {
        lemma_bld_fail_none(rows, m, dev, a + 1);
    }
}

/// The monotonicity law, first half: the scanner never reports two
/// consecutive transitions into the same building.
pub proof fn lemma_changes_adjacent_differ(
    rows: Seq<Seq<u8>>,
    k: int,
    m: Map<Seq<u8>, Seq<u8>>,
    dev: Seq<u8>,
)
    ensures
        forall|i: int|
            0 <= i < change_events(rows, k, m, dev).len() - 1 ==> #[trigger] change_events(
                rows,
                k,
                m,
                dev,
            )[i].1 != change_events(rows, k, m, dev)[i + 1].1,
    decreases k,
{
    if k > 0 {
        lemma_changes_adjacent_differ(rows, k - 1, m, dev);
        let prev = change_events(rows, k - 1, m, dev);
        let cur = change_events(rows, k, m, dev);
        assert forall|i: int| 0 <= i < cur.len() - 1 implies #[trigger] cur[i].1 != cur[i + 1].1 by {
            if i + 1 < prev.len() {
                assert(cur[i] == prev[i] && cur[i + 1] == prev[i + 1]);
            } else if cur.len() > prev.len() {
                assert(i + 1 == prev.len());
                assert(cur[i] == prev[i] && prev[i] == prev.last());
            }
        }
    }
}

/// The monotonicity law, second half: while every target row among the
/// first `k` stands in the one building `b`, at most one transition is
/// reported, and it is into `b`.
pub proof fn lemma_changes_same_building(
    rows: Seq<Seq<u8>>,
    k: int,
    m: Map<Seq<u8>, Seq<u8>>,
    dev: Seq<u8>,
    b: Seq<u8>,
)
    requires
        forall|j: int|
            0 <= j < k && j < rows.len() && is_target(#[trigger] rows[j], dev) ==> m[ap_field(
                rows[j],
            )] == b,
        k <= rows.len(),
    ensures
        change_events(rows, k, m, dev).len() <= 1,
        change_events(rows, k, m, dev).len() == 1 <==> exists|j: int|
            0 <= j < k && is_target(#[trigger] rows[j], dev),
        change_events(rows, k, m, dev).len() == 1 ==> change_events(rows, k, m, dev).last().1 == b,
    decreases k,
{
    if k > 0 {
        lemma_changes_same_building(rows, k - 1, m, dev, b);
        if change_events(rows, k, m, dev).len() == 1 {
            if is_target(rows[k - 1], dev) {
                assert(exists|j: int| 0 <= j < k && is_target(#[trigger] rows[j], dev));
            } else {
                let j = choose|j: int| 0 <= j < k - 1 && is_target(#[trigger] rows[j], dev);
                assert(is_target(rows[j], dev));
            }
        }
        if exists|j: int| 0 <= j < k && is_target(#[trigger] rows[j], dev) {
            let j = choose|j: int| 0 <= j < k && is_target(#[trigger] rows[j], dev);
            if j < k - 1 {
                assert(exists|j2: int| 0 <= j2 < k - 1 && is_target(#[trigger] rows[j2], dev));
            }
        }
    }
}

/// The building-change scan over the log's lines (header included):
/// follows the target device through the registry's buildings and
/// reports each transition's timestamp, rendered as a calendar string.
/// Aborts on the first row too short for the device field, or target
/// row too short for its fields, with an unregistered access point —
/// naming it — or with an unparsable timestamp.
pub fn building_changes(lines: &Vec<Vec<u8>>, reg: &ApRegistry, target_device: &Vec<u8>) -> (r:
    Result<Vec<String>, LogError>)
    requires
        reg.wf(),
    ensures
        ({
            let rows = data_lines(lines_view(lines@));
            let m = reg@;
            let dev = target_device@;
            let events = change_events(rows, rows.len() as int, m, dev);
            &&& (r is Ok <==> bld_fail_from(rows, m, dev, 0) is None)
            &&& (r matches Ok(v) ==> v@.len() == events.len() && forall|j: int|
                0 <= j < events.len() ==> #[trigger] v@[j]@ == datetime_str_of(events[j].0))
            &&& (r matches Err(e) ==> bld_fail_from(rows, m, dev, 0) matches Some(i) && (if !bld_line_ok(
                rows[i],
            ) || rows[i].len() < 42 {
                e == LogError::ShortLine
            } else if !m.dom().contains(ap_field(rows[i])) {
                e matches LogError::UnknownAccessPoint(a) && a@ == ap_field(rows[i])
            } else {
                e == LogError::BadNumber
            }))
        }),
{
    let ghost rows = data_lines(lines_view(lines@));
    let ghost m = reg@;
    let ghost dev = target_device@;
    let mut result: Vec<String> = Vec::new();
    if lines.len() == 0 {
        proof {
            assert(rows.len() == 0);
        }
        return Ok(result);
    }
    proof {
        assert(rows.len() == lines@.len() - 1);
        assert(forall|j: int| 0 <= j < rows.len() ==> rows[j] == #[trigger] lines@[j + 1]@);
    }
    let mut prev_building: Option<Vec<u8>> = None;
    let mut i: usize = 1;
    while i < lines.len()
        invariant
            1 <= i <= lines@.len(),
            lines@.len() >= 1,
            rows == data_lines(lines_view(lines@)),
            m == reg@,
            dev == target_device@,
            reg.wf(),
            rows.len() == lines@.len() - 1,
            forall|j: int| 0 <= j < rows.len() ==> rows[j] == #[trigger] lines@[j + 1]@,
            forall|j: int| 0 <= j < i - 1 ==> !bld_line_fails(rows, j, m, dev),
            result@.len() == change_events(rows, i - 1, m, dev).len(),
            forall|j: int|
                0 <= j < result@.len() ==> #[trigger] result@[j]@ == datetime_str_of(
                    change_events(rows, i - 1, m, dev)[j].0,
                ),
            prev_building is None <==> change_events(rows, i - 1, m, dev).len() == 0,
            prev_building matches Some(p) ==> change_events(rows, i - 1, m, dev).len() > 0 && p@
                == change_events(rows, i - 1, m, dev).last().1,
        decreases lines@.len() - i,
    {
        let line = &lines[i];
        proof {
            assert(rows[i - 1] == line@);
        }
        if line.len() < 26 {
            proof {
                lemma_bld_fail_first(rows, m, dev, 0, i - 1);
            }
            return Err(LogError::ShortLine);
        }
        let device = copy_field(line, 11, 26);
        if bytes_eq(device.as_slice(), target_device.as_slice()) {
            proof {
                assert(is_target(rows[i - 1], dev));
            }
            if line.len() < 42 {
                proof {
                    lemma_bld_fail_first(rows, m, dev, 0, i - 1);
                }
                return Err(LogError::ShortLine);
            }
            let row_ap = copy_field(line, 27, 42);
            proof {
                assert(row_ap@ == ap_field(rows[i - 1]));
            }
            let building = match reg.lookup(row_ap.as_slice()) {
                None => {
                    proof {
                        lemma_bld_fail_first(rows, m, dev, 0, i - 1);
                    }
                    return Err(LogError::UnknownAccessPoint(row_ap));
                },
                Some(b) => b,
            };
            proof {
                assert(building@ == m[ap_field(rows[i - 1])]);
            }
            let changed = match &prev_building {
                None => true,
                Some(p) => !bytes_eq(p.as_slice(), building.as_slice()),
            };
            if changed {
                let ts = match parse_ts(line) {
                    None => {
                        proof {
                            lemma_bld_fail_first(rows, m, dev, 0, i - 1);
                        }
                        return Err(LogError::BadNumber);
                    },
                    Some(t) => t,
                };
                let stamp = datetime_string(ts);
                result.push(stamp);
                prev_building = Some(copy_field(building, 0, building.len()));
                proof {
                    assert(change_events(rows, i as int, m, dev) == change_events(
                        rows,
                        i - 1,
                        m,
                        dev,
                    ).push((ts_of(rows[i - 1]), m[ap_field(rows[i - 1])])));
                    assert(prev_building matches Some(p) ==> p@ =~= m[ap_field(rows[i - 1])]);
                    assert(!bld_line_fails(rows, i - 1, m, dev));
                }
            } else {
                // same building as last reported: nothing to emit, but the
                // timestamp field must still parse for the row to be valid
                match parse_ts(line) {
                    None => {
                        proof {
                            lemma_bld_fail_first(rows, m, dev, 0, i - 1);
                        }
                        return Err(LogError::BadNumber);
                    },
                    Some(_t) => {},
                };
                proof {
                    assert(change_events(rows, i as int, m, dev) == change_events(
                        rows,
                        i - 1,
                        m,
                        dev,
                    ));
                    assert(!bld_line_fails(rows, i - 1, m, dev));
                }
            }
        } else {
            proof {
                assert(!is_target(rows[i - 1], dev));
                assert(change_events(rows, i as int, m, dev) == change_events(rows, i - 1, m, dev));
                assert(!bld_line_fails(rows, i - 1, m, dev));
            }
        }
        i = i + 1;
    }
    proof {
        lemma_bld_fail_none(rows, m, dev, 0);
    }
    Ok(result)
}

} // verus!
