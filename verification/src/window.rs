//! The time-windowed unique-client scanner.
//!
//! Given a target access point and a reference timestamp, one pass over
//! the log collects the devices whose first upload row to that access
//! point falls within the window of 10,800 seconds from the reference,
//! in order of first appearance.  The deduplication runs before the
//! window test, so a device's first upload row to the target alone
//! decides its membership: a device whose first such row lies outside
//! the window stays excluded even if a later row of its would fall
//! inside.  That single-forward-pass behaviour is kept deliberately.

use vstd::prelude::*;

use crate::record::{
    ap_field, bytes_eq, copy_field, data_lines, device_field, is_upload, lines_view, parse_ts,
    ts_of, ts_ok,
};
use crate::seen::SeenSet;
use crate::LogError;

verus! {

/// The window's length in seconds: three hours.
pub const WINDOW_SECONDS: u64 = 10800;

/// The window scan can read all its fields from the line.
pub open spec fn win_line_ok(l: Seq<u8>) -> bool {
    l.len() >= 51
}

/// The row is an upload to the target access point.
pub open spec fn is_candidate(l: Seq<u8>, ap: Seq<u8>) -> bool {
    ap_field(l) == ap && is_upload(l)
}

/// Row `i` is its device's first upload row to the target access point.
pub open spec fn first_candidate(rows: Seq<Seq<u8>>, i: int, ap: Seq<u8>) -> bool {
    is_candidate(rows[i], ap) && !exists|j: int|
        0 <= j < i && is_candidate(#[trigger] rows[j], ap) && device_field(rows[j])
            == device_field(rows[i])
}

/// The timestamp lies within the window forward of the reference.
pub open spec fn in_window(ts: int, t0: int) -> bool {
    0 <= ts - t0 && ts - t0 <= WINDOW_SECONDS
}

/// The devices the scan has emitted after reading the first `k` rows:
/// one per first-candidate row whose timestamp falls in the window, in
/// row order.
pub open spec fn window_devices(rows: Seq<Seq<u8>>, k: int, ap: Seq<u8>, t0: int) -> Seq<Seq<u8>>
    decreases k,
{
    if k <= 0 {
        Seq::empty()
    } else {
        let prev = window_devices(rows, k - 1, ap, t0);
        if first_candidate(rows, k - 1, ap) && in_window(ts_of(rows[k - 1]), t0) {
            prev.push(device_field(rows[k - 1]))
        } else {
            prev
        }
    }
}

/// Row `i` aborts the window scan: it is too short, or it is a
/// first-candidate row whose timestamp field does not parse.
pub open spec fn win_line_fails(rows: Seq<Seq<u8>>, i: int, ap: Seq<u8>) -> bool {
    !win_line_ok(rows[i]) || (first_candidate(rows, i, ap) && !ts_ok(rows[i]))
}

/// Index of the first row at or after `i` that aborts the scan.
pub open spec fn win_fail_from(rows: Seq<Seq<u8>>, ap: Seq<u8>, i: int) -> Option<int>
    decreases rows.len() - i,
{
    if i < 0 || i >= rows.len() {
        None
    } else if win_line_fails(rows, i, ap) {
        Some(i)
    } else {
        win_fail_from(rows, ap, i + 1)
    }
}

/// If no row before `k` aborts and row `k` does, the scan stops at `k`.
proof fn lemma_win_fail_first(rows: Seq<Seq<u8>>, ap: Seq<u8>, a: int, k: int)
    requires
        0 <= a <= k < rows.len(),
        forall|j: int| a <= j < k ==> !win_line_fails(rows, j, ap),
        win_line_fails(rows, k, ap),
    ensures
        win_fail_from(rows, ap, a) == Some(k),
    decreases k - a,
{
    if a < k {
        lemma_win_fail_first(rows, ap, a + 1, k);
    }
}

/// If no row at or after `a` aborts, the scan runs through.
proof fn lemma_win_fail_none(rows: Seq<Seq<u8>>, ap: Seq<u8>, a: int)
    requires
        forall|j: int| a <= j < rows.len() ==> !win_line_fails(rows, j, ap),
    ensures
        win_fail_from(rows, ap, a) is None,
    decreases rows.len() - a,
{
    if 0 <= a < rows.len() {
        lemma_win_fail_none(rows, ap, a + 1);
    }
}

/// A device is emitted exactly when some first-candidate row among the
/// first `k` carries it inside the window.
pub proof fn lemma_window_devices_contains(
    rows: Seq<Seq<u8>>,
    k: int,
    ap: Seq<u8>,
    t0: int,
    d: Seq<u8>,
)
    requires
        k <= rows.len(),
    ensures
        window_devices(rows, k, ap, t0).contains(d) <==> exists|j: int|
            0 <= j < k && first_candidate(rows, j, ap) && in_window(
                ts_of(#[trigger] rows[j]),
                t0,
            ) && device_field(rows[j]) == d,
    decreases k,
{
    if k > 0 {
        lemma_window_devices_contains(rows, k - 1, ap, t0, d);
        let prev = window_devices(rows, k - 1, ap, t0);
        let cur = window_devices(rows, k, ap, t0);
        if cur.contains(d) {
            if first_candidate(rows, k - 1, ap) && in_window(ts_of(rows[k - 1]), t0) {
                let w = choose|w: int| 0 <= w < cur.len() && cur[w] == d;
                if w < prev.len() {
                    assert(prev[w] == d);
                }
            }
        }
        if exists|j: int|
            0 <= j < k && first_candidate(rows, j, ap) && in_window(ts_of(#[trigger] rows[j]), t0)
                && device_field(rows[j]) == d {
            let j = choose|j: int|
                0 <= j < k && first_candidate(rows, j, ap) && in_window(
                    ts_of(#[trigger] rows[j]),
                    t0,
                ) && device_field(rows[j]) == d;
            if j < k - 1 {
                assert(prev.contains(d));
                let w = choose|w: int| 0 <= w < prev.len() && prev[w] == d;
                if first_candidate(rows, k - 1, ap) && in_window(ts_of(rows[k - 1]), t0) {
                    assert(cur[w] == d);
                }
            } else {
                assert(cur.last() == d);
            }
        }
    }
}

/// The window-boundary law: a device whose first upload row to the
/// target access point is row `i` is reported if and only if that row's
/// timestamp `ts` satisfies `0 <= ts - t0 <= 10800`.  In particular
/// `ts == t0` and `ts == t0 + 10800` are reported; `ts == t0 + 10801`
/// and `ts == t0 - 1` are not.
pub proof fn lemma_window_boundary(rows: Seq<Seq<u8>>, i: int, ap: Seq<u8>, t0: int)
    requires
        0 <= i < rows.len(),
        first_candidate(rows, i, ap),
    ensures
        window_devices(rows, rows.len() as int, ap, t0).contains(device_field(rows[i]))
            <==> in_window(ts_of(rows[i]), t0),
{
    let d = device_field(rows[i]);
    lemma_window_devices_contains(rows, rows.len() as int, ap, t0, d);
    if window_devices(rows, rows.len() as int, ap, t0).contains(d) {
        let j = choose|j: int|
            0 <= j < rows.len() && first_candidate(rows, j, ap) && in_window(
                ts_of(#[trigger] rows[j]),
                t0,
            ) && device_field(rows[j]) == d;
        if j < i {
            assert(is_candidate(rows[j], ap) && device_field(rows[j]) == device_field(rows[i]));
            assert(!first_candidate(rows, i, ap));
        } else if i < j {
            assert(is_candidate(rows[i], ap) && device_field(rows[i]) == device_field(rows[j]));
            assert(!first_candidate(rows, j, ap));
        }
    }
}

/// The time-windowed unique-client scan over the log's lines (header
/// included): reports, in order of first appearance, each device whose
/// first upload row to `target_ap` has a timestamp within 10,800
/// seconds forward of `reference_ts`.  Aborts on the first row too
/// short for its fields, or whose timestamp must be read and does not
/// parse.
pub fn unique_clients(lines: &Vec<Vec<u8>>, target_ap: &Vec<u8>, reference_ts: u64) -> (r: Result<
    Vec<Vec<u8>>,
    LogError,
>)
    requires
        reference_ts <= 9_999_999_999,
    ensures
        ({
            let rows = data_lines(lines_view(lines@));
            let ap = target_ap@;
            &&& (r is Ok <==> win_fail_from(rows, ap, 0) is None)
            &&& (r matches Ok(v) ==> lines_view(v@) == window_devices(
                rows,
                rows.len() as int,
                ap,
                reference_ts as int,
            ))
            &&& (r matches Err(e) ==> win_fail_from(rows, ap, 0) matches Some(i) && (if !win_line_ok(
                rows[i],
            ) {
                e == LogError::ShortLine
            } else {
                e == LogError::BadNumber
            }))
        }),
{
    let ghost rows = data_lines(lines_view(lines@));
    let ghost ap = target_ap@;
    let ghost t0 = reference_ts as int;
    let mut result: Vec<Vec<u8>> = Vec::new();
    if lines.len() == 0 {
        proof {
            assert(rows.len() == 0);
            assert(lines_view(result@) =~= Seq::<Seq<u8>>::empty());
        }
        return Ok(result);
    }
    proof {
        assert(rows.len() == lines@.len() - 1);
        assert(forall|j: int| 0 <= j < rows.len() ==> rows[j] == #[trigger] lines@[j + 1]@);
        assert(lines_view(result@) =~= Seq::<Seq<u8>>::empty());
    }
    let mut seen = SeenSet::new();
    let mut i: usize = 1;
    while i < lines.len()
        invariant
            1 <= i <= lines@.len(),
            lines@.len() >= 1,
            rows == data_lines(lines_view(lines@)),
            ap == target_ap@,
            t0 == reference_ts as int,
            reference_ts <= 9_999_999_999,
            rows.len() == lines@.len() - 1,
            forall|j: int| 0 <= j < rows.len() ==> rows[j] == #[trigger] lines@[j + 1]@,
            forall|j: int| 0 <= j < i - 1 ==> !win_line_fails(rows, j, ap),
            forall|d: Seq<u8>|
                seen@.contains(d) <==> exists|j: int|
                    0 <= j < i - 1 && is_candidate(#[trigger] rows[j], ap) && device_field(
                        rows[j],
                    ) == d,
            lines_view(result@) == window_devices(rows, i - 1, ap, t0),
        decreases lines@.len() - i,
    {
        let line = &lines[i];
        proof {
            assert(rows[i - 1] == line@);
        }
        if line.len() < 51 {
            proof {
                lemma_win_fail_first(rows, ap, 0, i - 1);
            }
            return Err(LogError::ShortLine);
        }
        let row_ap = copy_field(line, 27, 42);
        let candidate = bytes_eq(row_ap.as_slice(), target_ap.as_slice()) && line[50] == 117;
        proof {
            assert(candidate == is_candidate(rows[i - 1], ap));
        }
        if candidate {
            let device = copy_field(line, 11, 26);
            let fresh = seen.check_insert(device);
            proof {
                assert(fresh == first_candidate(rows, i - 1, ap));
            }
            if fresh {
                match parse_ts(line) {
                    None => {
                        proof {
                            lemma_win_fail_first(rows, ap, 0, i - 1);
                        }
                        return Err(LogError::BadNumber);
                    },
                    Some(ts) => {
                        if ts >= reference_ts && ts - reference_ts <= WINDOW_SECONDS {
                            let device_again = copy_field(line, 11, 26);
                            result.push(device_again);
                            proof {
                                assert(in_window(ts_of(rows[i - 1]), t0));
                                assert(lines_view(result@) =~= window_devices(
                                    rows,
                                    i - 1,
                                    ap,
                                    t0,
                                ).push(device_field(rows[i - 1])));
                            }
                        } else {
                            proof {
                                assert(!in_window(ts_of(rows[i - 1]), t0));
                            }
                        }
                    },
                }
            }
        }
        proof {
            assert(!win_line_fails(rows, i - 1, ap));
            assert(lines_view(result@) == window_devices(rows, i as int, ap, t0));
            if candidate {
                assert forall|d: Seq<u8>|
                    seen@.contains(d) <==> exists|j: int|
                        0 <= j < i && is_candidate(#[trigger] rows[j], ap) && device_field(
                            rows[j],
                        ) == d by {
                    if seen@.contains(d) {
                        if d != device_field(rows[i - 1]) {
                            let j = choose|j: int|
                                0 <= j < i - 1 && is_candidate(#[trigger] rows[j], ap)
                                    && device_field(rows[j]) == d;
                            assert(is_candidate(rows[j], ap) && device_field(rows[j]) == d);
                        } else {
                            assert(is_candidate(rows[i - 1], ap) && device_field(rows[i - 1])
                                == d);
                        }
                    } else {
                        assert(forall|j: int|
                            0 <= j < i - 1 && is_candidate(#[trigger] rows[j], ap)
                                ==> device_field(rows[j]) != d);
                        if is_candidate(rows[i - 1], ap) && device_field(rows[i - 1]) == d {
                            assert(seen@.contains(d));
                        }
                    }
                }
            } else {
                assert forall|d: Seq<u8>|
                    seen@.contains(d) <==> exists|j: int|
                        0 <= j < i && is_candidate(#[trigger] rows[j], ap) && device_field(
                            rows[j],
                        ) == d by {
                    if seen@.contains(d) {
                        let j = choose|j: int|
                            0 <= j < i - 1 && is_candidate(#[trigger] rows[j], ap)
                                && device_field(rows[j]) == d;
                        assert(is_candidate(rows[j], ap) && device_field(rows[j]) == d);
                    }
                }
            }
        }
        i = i + 1;
    }
    proof {
        lemma_win_fail_none(rows, ap, 0);
    }
    Ok(result)
}

} // verus!
