//! The byte-aggregation scanner and its cube.
//!
//! One pass over the log accumulates, for every calendar date,
//! access-point identifier and traffic direction, the sum of the byte
//! counts of the matching rows.  The cube is a flat table under that
//! triple key; values grow by unsigned addition and an addition that
//! would leave `u64` is reported as an error, never wrapped.  The scan
//! is a fold whose combine is commutative and associative, so any
//! partition of the rows may be aggregated apart and merged.

use vstd::prelude::*;

use crate::dates::{date_str_of, date_string};
use crate::record::{
    ap_field, bytes_of, bytes_ok, copy_field, data_lines, dir_of, lines_view,
    parse_byte_count, parse_direction, parse_ts, ts_of, ts_ok, Direction,
};
use crate::LogError;

verus! {

/// One accumulated total: the bytes moved on `date`, through the access
/// point `ap`, in direction `dir`.
pub struct CubeEntry {
    pub date: String,
    pub ap: Vec<u8>,
    pub dir: Direction,
    pub total: u64,
}

/// The entry accumulates the triple key `(date, ap, dir)`.
pub open spec fn entry_matches(e: CubeEntry, date: Seq<char>, ap: Seq<u8>, dir: Direction) -> bool {
    e.date@ == date && e.ap@ == ap && e.dir == dir
}

/// Sum of the totals of the entries under the key `(date, ap, dir)`.
pub open spec fn seq_total(s: Seq<CubeEntry>, date: Seq<char>, ap: Seq<u8>, dir: Direction) -> int
    decreases s.len(),
{
    if s.len() == 0 {
        0
    } else {
        seq_total(s.drop_last(), date, ap, dir) + if entry_matches(s.last(), date, ap, dir) {
            s.last().total as int
        } else {
            0
        }
    }
}

/// Some entry of `s` holds the triple key `(date, ap, dir)`.
pub open spec fn seq_lists(s: Seq<CubeEntry>, date: Seq<char>, ap: Seq<u8>, dir: Direction) -> bool {
    exists|i: int| 0 <= i < s.len() && entry_matches(#[trigger] s[i], date, ap, dir)
}

/// No two entries of `s` share their triple key.
pub open spec fn entry_keys_unique(s: Seq<CubeEntry>) -> bool {
    forall|i: int, j: int|
        0 <= i < j < s.len() ==> !entry_matches(#[trigger] s[j], #[trigger] s[i].date@, s[i].ap@, s[i].dir)
}

/// The three-level byte-count table of the aggregation scan.
pub struct Cube {
    entries: Vec<CubeEntry>,
}

impl Cube {
    /// Each triple key is held by at most one entry.
    pub closed spec fn wf(&self) -> bool {
        entry_keys_unique(self.entries@)
    }

    /// The accumulated total under a triple key; zero where the cube
    /// holds none.
    pub closed spec fn total_of(&self, date: Seq<char>, ap: Seq<u8>, dir: Direction) -> int {
        seq_total(self.entries@, date, ap, dir)
    }

    /// The cube holds an entry under the triple key.
    pub closed spec fn lists(&self, date: Seq<char>, ap: Seq<u8>, dir: Direction) -> bool {
        seq_lists(self.entries@, date, ap, dir)
    }

    /// An empty cube.
    pub fn new() -> (r: Cube)
        ensures
            r.wf(),
            forall|d: Seq<char>, a: Seq<u8>, dr: Direction| r.total_of(d, a, dr) == 0,
            forall|d: Seq<char>, a: Seq<u8>, dr: Direction| !r.lists(d, a, dr),
    {
        Cube { entries: Vec::new() }
    }

    /// How many triple keys hold a total.
    pub fn len(&self) -> (r: usize)
        ensures
            r == self.entry_count(),
    {
        self.entries.len()
    }

    /// The number of entries.
    pub closed spec fn entry_count(&self) -> nat {
        self.entries@.len()
    }

    /// The entry at a position, for walking the cube's contents: its
    /// `total` field is the cube's whole total under its own key, a key
    /// the cube lists.
    pub fn entry_at(&self, i: usize) -> (r: &CubeEntry)
        requires
            self.wf(),
            i < self.entry_count(),
        ensures
            r.total as int == self.total_of(r.date@, r.ap@, r.dir),
            self.lists(r.date@, r.ap@, r.dir),
    {
        proof {
            lemma_seq_total_unique_match(self.entries@, i as int);
            assert(entry_matches(
                self.entries@[i as int],
                self.entries@[i as int].date@,
                self.entries@[i as int].ap@,
                self.entries@[i as int].dir,
            ));
        }
        &self.entries[i]
    }

    /// Adds `n` bytes under a triple key.  Fails exactly when the new
    /// total would not fit in `u64`, and then changes nothing.
    pub fn add_count(&mut self, date: String, ap: Vec<u8>, dir: Direction, n: u64) -> (r: Result<
        (),
        LogError,
    >)
        requires
            old(self).wf(),
        ensures
            r is Ok <==> old(self).total_of(date@, ap@, dir) + n <= u64::MAX,
            r matches Err(e) ==> e == LogError::Overflow && *final(self) == *old(self),
            r is Ok ==> final(self).wf() && forall|d: Seq<char>, a: Seq<u8>, dr: Direction|
                final(self).total_of(d, a, dr) == old(self).total_of(d, a, dr) + if d == date@
                    && a == ap@ && dr == dir {
                    n as int
                } else {
                    0
                },
            r is Ok ==> forall|d: Seq<char>, a: Seq<u8>, dr: Direction|
                final(self).lists(d, a, dr) <==> old(self).lists(d, a, dr) || (d == date@ && a
                    == ap@ && dr == dir),
    {
        let ghost olde = self.entries@;
        let mut i: usize = 0;
        while i < self.entries.len()
            invariant
                0 <= i <= self.entries@.len(),
                self == old(self),
                olde == self.entries@,
                self.wf(),
                forall|j: int|
                    0 <= j < i ==> !entry_matches(#[trigger] self.entries@[j], date@, ap@, dir),
            decreases self.entries@.len() - i,
        {
            let e = &self.entries[i];
            if e.dir == dir && crate::record::bytes_eq(e.ap.as_slice(), ap.as_slice())
                && e.date == date {
                proof {
                    lemma_seq_total_unique_match(olde, i as int);
                    assert(seq_total(olde, date@, ap@, dir) == olde[i as int].total as int);
                }
                if n > u64::MAX - self.entries[i].total {
                    return Err(LogError::Overflow);
                }
                let new_total = self.entries[i].total + n;
                let olddate = self.entries[i].date.clone();
                let oldap = copy_field(&self.entries[i].ap, 0, self.entries[i].ap.len());
                let newe = CubeEntry { date: olddate, ap: oldap, dir: self.entries[i].dir, total: new_total };
                proof {
                    assert(newe.date@ == olde[i as int].date@);
                    assert(newe.ap@ =~= olde[i as int].ap@);
                }
                self.entries.set(i, newe);
                proof {
                    assert forall|a2: int, b2: int| 0 <= a2 < b2 < self.entries@.len() implies
                        !entry_matches(
                            self.entries@[b2],
                            self.entries@[a2].date@,
                            self.entries@[a2].ap@,
                            self.entries@[a2].dir,
                        ) by {
                        assert(entry_matches(
                            self.entries@[a2],
                            olde[a2].date@,
                            olde[a2].ap@,
                            olde[a2].dir,
                        ));
                        assert(entry_matches(
                            self.entries@[b2],
                            olde[b2].date@,
                            olde[b2].ap@,
                            olde[b2].dir,
                        ));
                    }
                    assert forall|d: Seq<char>, a: Seq<u8>, dr: Direction|
                        seq_total(self.entries@, d, a, dr) == seq_total(olde, d, a, dr) + if d
                            == date@ && a == ap@ && dr == dir {
                            n as int
                        } else {
                            0
                        } by {
                        lemma_seq_total_update(olde, i as int, self.entries@[i as int], d, a, dr);
                        if d == date@ && a == ap@ && dr == dir {
                            assert(entry_matches(olde[i as int], d, a, dr));
                        } else {
                            if entry_matches(olde[i as int], d, a, dr) {
                                assert(d == date@ && a == ap@ && dr == dir);
                            }
                        }
                    }
                    assert forall|d: Seq<char>, a: Seq<u8>, dr: Direction|
                        seq_lists(self.entries@, d, a, dr) <==> seq_lists(olde, d, a, dr) || (d
                            == date@ && a == ap@ && dr == dir) by {
                        if seq_lists(self.entries@, d, a, dr) {
                            let w = choose|w: int|
                                0 <= w < self.entries@.len() && entry_matches(
                                    #[trigger] self.entries@[w],
                                    d,
                                    a,
                                    dr,
                                );
                            if w != i {
                                assert(entry_matches(olde[w], d, a, dr));
                            }
                        }
                        if seq_lists(olde, d, a, dr) {
                            let w = choose|w: int|
                                0 <= w < olde.len() && entry_matches(#[trigger] olde[w], d, a, dr);
                            if w == i {
                                assert(entry_matches(self.entries@[i as int], d, a, dr));
                            } else {
                                assert(entry_matches(self.entries@[w], d, a, dr));
                            }
                        }
                        if d == date@ && a == ap@ && dr == dir {
                            assert(entry_matches(self.entries@[i as int], d, a, dr));
                        }
                    }
                }
                return Ok(());
            }
            i = i + 1;
        }
        proof {
            lemma_seq_total_no_match(olde, date@, ap@, dir);
        }
        self.entries.push(CubeEntry { date, ap, dir, total: n });
        proof {
            assert(self.entries@.drop_last() =~= olde);
            assert forall|a2: int, b2: int| 0 <= a2 < b2 < self.entries@.len() implies
                !entry_matches(
                    self.entries@[b2],
                    self.entries@[a2].date@,
                    self.entries@[a2].ap@,
                    self.entries@[a2].dir,
                ) by {
                if b2 < olde.len() {
                    assert(entry_matches(olde[a2], olde[a2].date@, olde[a2].ap@, olde[a2].dir));
                } else {
                    assert(!entry_matches(olde[a2], date@, ap@, dir));
                }
            }
            assert forall|d: Seq<char>, a: Seq<u8>, dr: Direction|
                seq_total(self.entries@, d, a, dr) == seq_total(olde, d, a, dr) + if d == date@
                    && a == ap@ && dr == dir {
                    n as int
                } else {
                    0
                } by {
                if entry_matches(self.entries@.last(), d, a, dr) {
                    assert(d == date@ && a == ap@ && dr == dir);
                }
            }
            assert forall|d: Seq<char>, a: Seq<u8>, dr: Direction|
                seq_lists(self.entries@, d, a, dr) <==> seq_lists(olde, d, a, dr) || (d == date@
                    && a == ap@ && dr == dir) by {
                if seq_lists(self.entries@, d, a, dr) {
                    let w = choose|w: int|
                        0 <= w < self.entries@.len() && entry_matches(
                            #[trigger] self.entries@[w],
                            d,
                            a,
                            dr,
                        );
                    if w < olde.len() {
                        assert(entry_matches(olde[w], d, a, dr));
                    } else {
                        assert(entry_matches(self.entries@.last(), d, a, dr));
                    }
                }
                if seq_lists(olde, d, a, dr) {
                    let w = choose|w: int|
                        0 <= w < olde.len() && entry_matches(#[trigger] olde[w], d, a, dr);
                    assert(entry_matches(self.entries@[w], d, a, dr));
                }
                if d == date@ && a == ap@ && dr == dir {
                    assert(entry_matches(self.entries@[olde.len() as int], d, a, dr));
                }
            }
        }
        Ok(())
    }

    /// The total under a triple key.
    pub fn total(&self, date: &String, ap: &Vec<u8>, dir: Direction) -> (r: u64)
        requires
            self.wf(),
        ensures
            r == self.total_of(date@, ap@, dir),
    {
        let mut i: usize = 0;
        while i < self.entries.len()
            invariant
                0 <= i <= self.entries@.len(),
                self.wf(),
                forall|j: int|
                    0 <= j < i ==> !entry_matches(#[trigger] self.entries@[j], date@, ap@, dir),
            decreases self.entries@.len() - i,
        {
            let e = &self.entries[i];
            if e.dir == dir && crate::record::bytes_eq(e.ap.as_slice(), ap.as_slice())
                && e.date == *date {
                proof {
                    lemma_seq_total_unique_match(self.entries@, i as int);
                }
                return self.entries[i].total;
            }
            i = i + 1;
        }
        proof {
            lemma_seq_total_no_match(self.entries@, date@, ap@, dir);
        }
        0
    }

    /// Folds every total of `other` into `self`.  Fails exactly when some
    /// combined total would not fit in `u64`.
    pub fn merge(&mut self, other: &Cube) -> (r: Result<(), LogError>)
        requires
            old(self).wf(),
            other.wf(),
        ensures
            r is Ok <==> forall|d: Seq<char>, a: Seq<u8>, dr: Direction|
                old(self).total_of(d, a, dr) + other.total_of(d, a, dr) <= u64::MAX,
            r is Ok ==> final(self).wf() && forall|d: Seq<char>, a: Seq<u8>, dr: Direction|
                final(self).total_of(d, a, dr) == old(self).total_of(d, a, dr)
                    + other.total_of(d, a, dr),
            r is Ok ==> forall|d: Seq<char>, a: Seq<u8>, dr: Direction|
                final(self).lists(d, a, dr) <==> old(self).lists(d, a, dr) || other.lists(
                    d,
                    a,
                    dr,
                ),
            r matches Err(e) ==> e == LogError::Overflow && final(self).wf() && forall|
                d: Seq<char>,
                a: Seq<u8>,
                dr: Direction,
            |
                #![trigger final(self).total_of(d, a, dr)]
                old(self).total_of(d, a, dr) <= final(self).total_of(d, a, dr) <= old(
                    self,
                ).total_of(d, a, dr) + other.total_of(d, a, dr),
    {
        let ghost oth = other.entries@;
        let mut j: usize = 0;
        while j < other.entries.len()
            invariant
                0 <= j <= oth.len(),
                oth == other.entries@,
                other.wf(),
                self.wf(),
                forall|d: Seq<char>, a: Seq<u8>, dr: Direction|
                    self.total_of(d, a, dr) == old(self).total_of(d, a, dr) + seq_total(
                        oth.take(j as int),
                        d,
                        a,
                        dr,
                    ),
                forall|d: Seq<char>, a: Seq<u8>, dr: Direction|
                    self.lists(d, a, dr) <==> old(self).lists(d, a, dr) || seq_lists(
                        oth.take(j as int),
                        d,
                        a,
                        dr,
                    ),
            decreases oth.len() - j,
        {
            let e = &other.entries[j];
            let date = e.date.clone();
            let ap = copy_field(&e.ap, 0, e.ap.len());
            let n = e.total;
            proof {
                assert(date@ == oth[j as int].date@);
                assert(ap@ =~= oth[j as int].ap@);
                assert(n == oth[j as int].total);
            }
            let ghost before = *self;
            let res = self.add_count(date, ap, e.dir, n);
            proof {
                assert(oth.take(j + 1).drop_last() =~= oth.take(j as int));
                assert(oth.take(j + 1).last() == oth[j as int]);
            }
            match res {
                Ok(()) => {
                    proof {
                        assert forall|d: Seq<char>, a: Seq<u8>, dr: Direction|
                            self.total_of(d, a, dr) == old(self).total_of(d, a, dr) + seq_total(
                                oth.take(j + 1),
                                d,
                                a,
                                dr,
                            ) by {
                            if entry_matches(oth[j as int], d, a, dr) {
                                assert(d == oth[j as int].date@ && a == oth[j as int].ap@
                                    && dr == oth[j as int].dir);
                            }
                        }
                        assert forall|d: Seq<char>, a: Seq<u8>, dr: Direction|
                            self.lists(d, a, dr) <==> old(self).lists(d, a, dr) || seq_lists(
                                oth.take(j + 1),
                                d,
                                a,
                                dr,
                            ) by {
                            if seq_lists(oth.take(j + 1), d, a, dr) {
                                let w = choose|w: int|
                                    0 <= w < j + 1 && entry_matches(
                                        #[trigger] oth.take(j + 1)[w],
                                        d,
                                        a,
                                        dr,
                                    );
                                if w < j {
                                    assert(entry_matches(oth.take(j as int)[w], d, a, dr));
                                } else {
                                    assert(entry_matches(oth[j as int], d, a, dr));
                                }
                            }
                            if seq_lists(oth.take(j as int), d, a, dr) {
                                let w = choose|w: int|
                                    0 <= w < j && entry_matches(
                                        #[trigger] oth.take(j as int)[w],
                                        d,
                                        a,
                                        dr,
                                    );
                                assert(entry_matches(oth.take(j + 1)[w], d, a, dr));
                            }
                            if d == date@ && a == ap@ && dr == oth[j as int].dir {
                                assert(entry_matches(oth.take(j + 1)[j as int], d, a, dr));
                            }
                        }
                    }
                }
                Err(err) => {
                    proof {
                        let d0 = oth[j as int].date@;
                        let a0 = oth[j as int].ap@;
                        let dr0 = oth[j as int].dir;
                        assert(entry_matches(oth[j as int], d0, a0, dr0));
                        assert(before.total_of(d0, a0, dr0) + n > u64::MAX);
                        assert(seq_total(oth.take(j + 1), d0, a0, dr0) == seq_total(
                            oth.take(j as int),
                            d0,
                            a0,
                            dr0,
                        ) + n);
                        lemma_seq_total_take_le(oth, j + 1, d0, a0, dr0);
                        assert(old(self).total_of(d0, a0, dr0) + other.total_of(d0, a0, dr0)
                            > u64::MAX);
                        assert forall|d: Seq<char>, a: Seq<u8>, dr: Direction|
                            #![trigger self.total_of(d, a, dr)]
                            old(self).total_of(d, a, dr) <= self.total_of(d, a, dr) <= old(
                                self,
                            ).total_of(d, a, dr) + other.total_of(d, a, dr) by {
                            assert(self.total_of(d, a, dr) == before.total_of(d, a, dr));
                            assert(before.total_of(d, a, dr) == old(self).total_of(d, a, dr)
                                + seq_total(oth.take(j as int), d, a, dr));
                            lemma_seq_total_nonneg(oth.take(j as int), d, a, dr);
                            lemma_seq_total_take_le(oth, j as int, d, a, dr);
                        }
                    }
                    return Err(err);
                }
            }
            j = j + 1;
        }
        proof {
            assert(oth.take(oth.len() as int) =~= oth);
            assert forall|d: Seq<char>, a: Seq<u8>, dr: Direction|
                old(self).total_of(d, a, dr) + other.total_of(d, a, dr) <= u64::MAX by {
                assert(self.total_of(d, a, dr) == old(self).total_of(d, a, dr) + seq_total(
                    oth,
                    d,
                    a,
                    dr,
                ));
                lemma_total_of_bounded(self.entries@, d, a, dr);
            }
            assert forall|d: Seq<char>, a: Seq<u8>, dr: Direction|
                self.lists(d, a, dr) <==> old(self).lists(d, a, dr) || other.lists(d, a, dr) by {
                assert(self.lists(d, a, dr) <==> old(self).lists(d, a, dr) || seq_lists(
                    oth,
                    d,
                    a,
                    dr,
                ));
            }
        }
        Ok(())
    }
}

/// The aggregation scan can read all its fields from the line: it is
/// long enough and both decimal fields start with a digit.
pub open spec fn agg_line_ok(l: Seq<u8>) -> bool {
    l.len() >= 51 && ts_ok(l) && bytes_ok(l)
}

/// The error a malformed line aborts the aggregation with.
pub open spec fn agg_line_err(l: Seq<u8>) -> LogError {
    if l.len() < 51 {
        LogError::ShortLine
    } else {
        LogError::BadNumber
    }
}

/// Row `l` decodes to the triple key `(d, a, dr)`: `d` is its
/// timestamp's calendar date, `a` its access point and `dr` its
/// direction.
pub open spec fn row_key_is(l: Seq<u8>, d: Seq<char>, a: Seq<u8>, dr: Direction) -> bool {
    d == date_str_of(ts_of(l)) && a == ap_field(l) && dr == dir_of(l)
}

/// What one row adds under the triple key `(d, a, dr)`: its byte count
/// when the row decodes to that key, else nothing.
pub open spec fn row_count(l: Seq<u8>, d: Seq<char>, a: Seq<u8>, dr: Direction) -> int {
    if row_key_is(l, d, a, dr) {
        bytes_of(l)
    } else {
        0
    }
}

/// The byte total of a sequence of rows under a triple key.
pub open spec fn lines_total(rows: Seq<Seq<u8>>, d: Seq<char>, a: Seq<u8>, dr: Direction) -> int
    decreases rows.len(),
{
    if rows.len() == 0 {
        0
    } else {
        lines_total(rows.drop_last(), d, a, dr) + row_count(rows.last(), d, a, dr)
    }
}

/// The first malformed row's error, in scan order; `None` when every row
/// is well formed.
pub open spec fn scan_err(rows: Seq<Seq<u8>>) -> Option<LogError>
    decreases rows.len(),
{
    if rows.len() == 0 {
        None
    } else if !agg_line_ok(rows.first()) {
        Some(agg_line_err(rows.first()))
    } else {
        scan_err(rows.drop_first())
    }
}

/// A row adds nothing negative.
pub proof fn lemma_row_count_nonneg(l: Seq<u8>, d: Seq<char>, a: Seq<u8>, dr: Direction)
    ensures
        row_count(l, d, a, dr) >= 0,
{
    crate::record::lemma_dec_prefix_value_nonneg(crate::record::bytes_field(l));
}

/// A prefix of the rows never exceeds the whole scan's total.
pub proof fn lemma_lines_total_take_le(
    rows: Seq<Seq<u8>>,
    j: int,
    d: Seq<char>,
    a: Seq<u8>,
    dr: Direction,
)
    requires
        0 <= j <= rows.len(),
    ensures
        lines_total(rows.take(j), d, a, dr) <= lines_total(rows, d, a, dr),
    decreases rows.len() - j,
{
    if j < rows.len() {
        lemma_lines_total_take_le(rows, j + 1, d, a, dr);
        assert(rows.take(j + 1).drop_last() =~= rows.take(j));
        assert(rows.take(j + 1).last() == rows[j]);
        lemma_row_count_nonneg(rows[j], d, a, dr);
    } else {
        assert(rows.take(j) =~= rows);
    }
}

/// If the first `k` rows are well formed and row `k` is not, the scan
/// aborts with row `k`'s error.
proof fn lemma_scan_err_at(rows: Seq<Seq<u8>>, k: int)
    requires
        0 <= k < rows.len(),
        forall|j: int| 0 <= j < k ==> agg_line_ok(#[trigger] rows[j]),
        !agg_line_ok(rows[k]),
    ensures
        scan_err(rows) == Some(agg_line_err(rows[k])),
    decreases k,
{
    if k > 0 {
        lemma_scan_err_at(rows.drop_first(), k - 1);
    }
}

/// With every row well formed, the scan aborts on none.
proof fn lemma_scan_err_none(rows: Seq<Seq<u8>>)
    requires
        forall|j: int| 0 <= j < rows.len() ==> agg_line_ok(#[trigger] rows[j]),
    ensures
        scan_err(rows) is None,
    decreases rows.len(),
{
    if rows.len() > 0 {
        lemma_scan_err_none(rows.drop_first());
    }
}

/// Splitting the rows anywhere splits the total: aggregation is additive
/// over concatenation, so a pass over the whole equals passes over the
/// parts combined.
pub proof fn lemma_lines_total_concat(
    xs: Seq<Seq<u8>>,
    ys: Seq<Seq<u8>>,
    d: Seq<char>,
    a: Seq<u8>,
    dr: Direction,
)
    ensures
        lines_total(xs + ys, d, a, dr) == lines_total(xs, d, a, dr) + lines_total(ys, d, a, dr),
    decreases ys.len(),
{
    if ys.len() == 0 {
        assert(xs + ys =~= xs);
    } else {
        lemma_lines_total_concat(xs, ys.drop_last(), d, a, dr);
        assert((xs + ys).drop_last() =~= xs + ys.drop_last());
        assert((xs + ys).last() == ys.last());
    }
}

/// The combined totals of a sequence of row partitions.
pub open spec fn chunk_totals(
    chunks: Seq<Seq<Seq<u8>>>,
    d: Seq<char>,
    a: Seq<u8>,
    dr: Direction,
) -> int
    decreases chunks.len(),
{
    if chunks.len() == 0 {
        0
    } else {
        lines_total(chunks.first(), d, a, dr) + chunk_totals(chunks.drop_first(), d, a, dr)
    }
}

/// However the rows are partitioned into consecutive chunks, aggregating
/// each chunk apart and adding the partial totals yields the total of
/// the single pass over all rows: the merge is a commutative, associative
/// combine, so its order does not matter.
pub proof fn lemma_partition_total(
    chunks: Seq<Seq<Seq<u8>>>,
    d: Seq<char>,
    a: Seq<u8>,
    dr: Direction,
)
    ensures
        lines_total(chunks.flatten(), d, a, dr) == chunk_totals(chunks, d, a, dr),
    decreases chunks.len(),
{
    if chunks.len() == 0 {
        assert(chunks.flatten() =~= Seq::<Seq<u8>>::empty());
    } else {
        lemma_partition_total(chunks.drop_first(), d, a, dr);
        assert(chunks.flatten() == chunks.first() + chunks.drop_first().flatten());
        lemma_lines_total_concat(chunks.first(), chunks.drop_first().flatten(), d, a, dr);
    }
}

/// The byte-aggregation scan: one pass over the log's lines (header
/// included), accumulating every row's byte count under the row's date,
/// access point and direction.  Succeeds exactly when every row is well
/// formed and no total leaves `u64`; fails with the first malformed
/// row's error, or with an overflow where all rows are well formed.
pub fn aggregate(lines: &Vec<Vec<u8>>) -> (r: Result<Cube, LogError>)
    ensures
        ({
            let rows = data_lines(lines_view(lines@));
            &&& (r matches Ok(c) ==> c.wf() && forall|d: Seq<char>, a: Seq<u8>, dr: Direction|
                c.total_of(d, a, dr) == lines_total(rows, d, a, dr))
            &&& (r matches Ok(c) ==> forall|d: Seq<char>, a: Seq<u8>, dr: Direction|
                c.lists(d, a, dr) <==> exists|j: int|
                    0 <= j < rows.len() && row_key_is(#[trigger] rows[j], d, a, dr))
            &&& (r is Ok <==> scan_err(rows) is None && (forall|
                d: Seq<char>,
                a: Seq<u8>,
                dr: Direction,
            |
                lines_total(rows, d, a, dr) <= u64::MAX))
            &&& (r matches Err(e) ==> (scan_err(rows) matches Some(e0) && e == e0) || (scan_err(
                rows,
            ) is None && e == LogError::Overflow))
        }),
{
    let ghost rows = data_lines(lines_view(lines@));
    if lines.len() == 0 {
        proof {
            assert(rows.len() == 0);
        }
        return Ok(Cube::new());
    }
    proof {
        assert(rows.len() == lines@.len() - 1);
        assert(forall|j: int| 0 <= j < rows.len() ==> rows[j] == #[trigger] lines@[j + 1]@);
    }
    let mut i: usize = 1;
    while i < lines.len()
        invariant
            1 <= i <= lines@.len(),
            lines@.len() >= 1,
            rows == data_lines(lines_view(lines@)),
            rows.len() == lines@.len() - 1,
            forall|j: int| 0 <= j < rows.len() ==> rows[j] == #[trigger] lines@[j + 1]@,
            forall|j: int| 0 <= j < i - 1 ==> agg_line_ok(#[trigger] rows[j]),
        decreases lines@.len() - i,
    {
        let line = &lines[i];
        proof {
            assert(rows[i - 1] == line@);
        }
        if line.len() < 51 {
            proof {
                lemma_scan_err_at(rows, i - 1);
            }
            return Err(LogError::ShortLine);
        }
        let ts_good = match parse_ts(line) {
            Some(_) => true,
            None => false,
        };
        let bytes_good = match parse_byte_count(line) {
            Some(_) => true,
            None => false,
        };
        if !ts_good || !bytes_good {
            proof {
                lemma_scan_err_at(rows, i - 1);
            }
            return Err(LogError::BadNumber);
        }
        i = i + 1;
    }
    proof {
        lemma_scan_err_none(rows);
    }
    let mut cube = Cube::new();
    proof {
        assert(forall|d: Seq<char>, a: Seq<u8>, dr: Direction|
            cube.total_of(d, a, dr) == lines_total(rows.take(0), d, a, dr));
    }
    let mut i: usize = 1;
    while i < lines.len()
        invariant
            1 <= i <= lines@.len(),
            lines@.len() >= 1,
            rows == data_lines(lines_view(lines@)),
            rows.len() == lines@.len() - 1,
            forall|j: int| 0 <= j < rows.len() ==> rows[j] == #[trigger] lines@[j + 1]@,
            forall|j: int| 0 <= j < rows.len() ==> agg_line_ok(#[trigger] rows[j]),
            cube.wf(),
            forall|d: Seq<char>, a: Seq<u8>, dr: Direction|
                cube.total_of(d, a, dr) == lines_total(rows.take(i - 1), d, a, dr),
            forall|d: Seq<char>, a: Seq<u8>, dr: Direction|
                cube.lists(d, a, dr) <==> exists|j: int|
                    0 <= j < i - 1 && row_key_is(#[trigger] rows[j], d, a, dr),
        decreases lines@.len() - i,
    {
        let line = &lines[i];
        proof {
            assert(rows[i - 1] == line@);
            assert(agg_line_ok(rows[i - 1]));
        }
        let ts = match parse_ts(line) {
            Some(t) => t,
            None => {
                proof {
                    assert(false);
                }
                return Err(LogError::BadNumber);
            },
        };
        let date = date_string(ts);
        let ap = copy_field(line, 27, 42);
        let n = match parse_byte_count(line) {
            Some(v) => v,
            None => {
                proof {
                    assert(false);
                }
                return Err(LogError::BadNumber);
            },
        };
        let dir = parse_direction(line);
        let ghost before = cube;
        let res = cube.add_count(date, ap, dir, n);
        proof {
            assert(date@ == date_str_of(ts_of(rows[i - 1])));
            assert(ap@ =~= ap_field(rows[i - 1]));
            assert(dir == dir_of(rows[i - 1]));
            assert(n == bytes_of(rows[i - 1]));
            assert(rows.take(i as int).drop_last() =~= rows.take(i - 1));
            assert(rows.take(i as int).last() == rows[i - 1]);
        }
        match res {
            Ok(()) => {
                proof {
                    assert forall|d: Seq<char>, a: Seq<u8>, dr: Direction|
                        cube.total_of(d, a, dr) == lines_total(rows.take(i as int), d, a, dr) by {
                        assert(cube.total_of(d, a, dr) == before.total_of(d, a, dr) + if d == date@
                            && a == ap@ && dr == dir {
                            n as int
                        } else {
                            0
                        });
                        assert(row_count(rows[i - 1], d, a, dr) == if d == date@ && a == ap@ && dr
                            == dir {
                            n as int
                        } else {
                            0
                        });
                    }
                    assert forall|d: Seq<char>, a: Seq<u8>, dr: Direction|
                        cube.lists(d, a, dr) <==> exists|j2: int|
                            0 <= j2 < i && row_key_is(#[trigger] rows[j2], d, a, dr) by {
                        if cube.lists(d, a, dr) {
                            if before.lists(d, a, dr) {
                                let j2 = choose|j2: int|
                                    0 <= j2 < i - 1 && row_key_is(#[trigger] rows[j2], d, a, dr);
                                assert(row_key_is(rows[j2], d, a, dr));
                            } else {
                                assert(d == date@ && a == ap@ && dr == dir);
                                assert(row_key_is(rows[i - 1], d, a, dr));
                            }
                        }
                        if exists|j2: int| 0 <= j2 < i && row_key_is(#[trigger] rows[j2], d, a, dr) {
                            let j2 = choose|j2: int|
                                0 <= j2 < i && row_key_is(#[trigger] rows[j2], d, a, dr);
                            if j2 < i - 1 {
                                assert(exists|j3: int|
                                    0 <= j3 < i - 1 && row_key_is(#[trigger] rows[j3], d, a, dr));
                            } else {
                                assert(d == date@ && a == ap@ && dr == dir);
                            }
                        }
                    }
                }
            },
            Err(e) => {
                proof {
                    let d0 = date@;
                    let a0 = ap@;
                    let dr0 = dir;
                    assert(before.total_of(d0, a0, dr0) + n > u64::MAX);
                    assert(row_count(rows[i - 1], d0, a0, dr0) == n as int);
                    assert(lines_total(rows.take(i as int), d0, a0, dr0) > u64::MAX);
                    lemma_lines_total_take_le(rows, i as int, d0, a0, dr0);
                    assert(lines_total(rows, d0, a0, dr0) > u64::MAX);
                    lemma_scan_err_none(rows);
                }
                return Err(LogError::Overflow);
            },
        }
        i = i + 1;
    }
    proof {
        assert(rows.take(i - 1) =~= rows);
        assert forall|d: Seq<char>, a: Seq<u8>, dr: Direction|
            lines_total(rows, d, a, dr) <= u64::MAX by {
            assert(cube.total_of(d, a, dr) == lines_total(rows.take(i - 1), d, a, dr));
            lemma_total_of_bounded(cube.entries@, d, a, dr);
        }
    }
    Ok(cube)
}

/// A total under an updated entry with the same key changes by the
/// entry's own change, and no other key moves.
proof fn lemma_seq_total_update(
    s: Seq<CubeEntry>,
    i: int,
    e2: CubeEntry,
    date: Seq<char>,
    ap: Seq<u8>,
    dir: Direction,
)
    requires
        0 <= i < s.len(),
        e2.date@ == s[i].date@,
        e2.ap@ == s[i].ap@,
        e2.dir == s[i].dir,
    ensures
        seq_total(s.update(i, e2), date, ap, dir) == seq_total(s, date, ap, dir) + if entry_matches(
            s[i],
            date,
            ap,
            dir,
        ) {
            e2.total - s[i].total
        } else {
            0
        },
    decreases s.len(),
{
    let s2 = s.update(i, e2);
    if i == s.len() - 1 {
        assert(s2.drop_last() =~= s.drop_last());
        assert(s2.last() == e2);
        assert(entry_matches(e2, date, ap, dir) == entry_matches(s[i], date, ap, dir));
    } else {
        lemma_seq_total_update(s.drop_last(), i, e2, date, ap, dir);
        assert(s2.drop_last() =~= s.drop_last().update(i, e2));
        assert(s2.last() == s.last());
    }
}

/// With unique keys, the total under an entry's own key is that entry's
/// total.
proof fn lemma_seq_total_unique_match(s: Seq<CubeEntry>, i: int)
    requires
        entry_keys_unique(s),
        0 <= i < s.len(),
    ensures
        seq_total(s, s[i].date@, s[i].ap@, s[i].dir) == s[i].total as int,
    decreases s.len(),
{
    let date = s[i].date@;
    let ap = s[i].ap@;
    let dir = s[i].dir;
    if i == s.len() - 1 {
        lemma_seq_total_no_match(s.drop_last(), date, ap, dir);
    } else {
        lemma_seq_total_unique_match(s.drop_last(), i);
        assert(!entry_matches(s.last(), date, ap, dir));
    }
}

/// Where no entry holds the key, the total is zero.
proof fn lemma_seq_total_no_match(s: Seq<CubeEntry>, date: Seq<char>, ap: Seq<u8>, dir: Direction)
    requires
        forall|j: int| 0 <= j < s.len() ==> !entry_matches(#[trigger] s[j], date, ap, dir),
    ensures
        seq_total(s, date, ap, dir) == 0,
    decreases s.len(),
{
    if s.len() > 0 {
        lemma_seq_total_no_match(s.drop_last(), date, ap, dir);
    }
}

/// A total is never negative.
proof fn lemma_seq_total_nonneg(s: Seq<CubeEntry>, date: Seq<char>, ap: Seq<u8>, dir: Direction)
    ensures
        seq_total(s, date, ap, dir) >= 0,
    decreases s.len(),
{
    if s.len() > 0 {
        lemma_seq_total_nonneg(s.drop_last(), date, ap, dir);
    }
}

/// Totals only grow along a prefix.
proof fn lemma_seq_total_take_le(
    s: Seq<CubeEntry>,
    j: int,
    date: Seq<char>,
    ap: Seq<u8>,
    dir: Direction,
)
    requires
        0 <= j <= s.len(),
    ensures
        seq_total(s.take(j), date, ap, dir) <= seq_total(s, date, ap, dir),
    decreases s.len() - j,
{
    if j < s.len() {
        lemma_seq_total_take_le(s, j + 1, date, ap, dir);
        assert(s.take(j + 1).drop_last() =~= s.take(j));
        assert(s.take(j + 1).last() == s[j]);
    } else {
        assert(s.take(j) =~= s);
    }
}

/// With unique keys every total fits in `u64`.
proof fn lemma_total_of_bounded(s: Seq<CubeEntry>, date: Seq<char>, ap: Seq<u8>, dir: Direction)
    requires
        entry_keys_unique(s),
    ensures
        0 <= seq_total(s, date, ap, dir) <= u64::MAX,
{
    if exists|i: int| 0 <= i < s.len() && entry_matches(#[trigger] s[i], date, ap, dir) {
        let i = choose|i: int| 0 <= i < s.len() && entry_matches(#[trigger] s[i], date, ap, dir);
        assert(s[i].date@ == date && s[i].ap@ == ap && s[i].dir == dir);
        lemma_seq_total_unique_match(s, i);
    } else {
        lemma_seq_total_no_match(s, date, ap, dir);
    }
}

} // verus!
