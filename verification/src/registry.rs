//! The access-point registry.
//!
//! A mapping from an access-point identifier to the building the access
//! point stands in, built by one pass over the access-point file: after
//! the header, every line holds the identifier at bytes 0..15 and the
//! building identifier at bytes 16..19.  A line too short for those
//! offsets is a fatal input error.

use vstd::prelude::*;

use crate::bytemap::ByteMap;
use crate::record::{copy_field, data_lines, lines_view};
use crate::LogError;

verus! {

/// The registry: access-point identifier to building identifier.
pub type ApRegistry = ByteMap<Vec<u8>>;

/// The registry line reaches the last byte offset read from it.
pub open spec fn reg_line_ok(l: Seq<u8>) -> bool {
    l.len() >= 19
}

/// The access-point identifier a registry line holds.
pub open spec fn reg_ap(l: Seq<u8>) -> Seq<u8> {
    l.subrange(0, 15)
}

/// The building identifier a registry line holds.
pub open spec fn reg_building(l: Seq<u8>) -> Seq<u8> {
    l.subrange(16, 19)
}

/// The mapping a sequence of registry rows describes; a repeated
/// access-point identifier keeps its last binding.
pub open spec fn reg_map(rows: Seq<Seq<u8>>) -> Map<Seq<u8>, Seq<u8>>
    decreases rows.len(),
{
    if rows.len() == 0 {
        Map::empty()
    } else {
        reg_map(rows.drop_last()).insert(reg_ap(rows.last()), reg_building(rows.last()))
    }
}

/// Builds the registry from the access-point file's lines (header
/// included).  Fails on the first data line too short for its fields,
/// and only then.
pub fn build_registry(lines: &Vec<Vec<u8>>) -> (r: Result<ApRegistry, LogError>)
    ensures
        r is Ok <==> (forall|i: int|
            0 <= i < data_lines(lines_view(lines@)).len() ==> reg_line_ok(
                #[trigger] data_lines(lines_view(lines@))[i],
            )),
        r matches Ok(reg) ==> reg.wf() && reg@ == reg_map(data_lines(lines_view(lines@))),
        r matches Err(e) ==> e == LogError::ShortLine,
{
    let ghost rows = data_lines(lines_view(lines@));
    let mut reg = ByteMap::<Vec<u8>>::new();
    let mut i: usize = 1;
    proof {
        assert(reg@ =~= reg_map(rows.take(0)));
    }
    if lines.len() == 0 {
        proof {
            assert(rows =~= rows.take(0));
        }
        return Ok(reg);
    }
    while i < lines.len()
        invariant
            1 <= i <= lines@.len(),
            lines@.len() >= 1,
            rows == data_lines(lines_view(lines@)),
            rows.len() == lines@.len() - 1,
            forall|j: int| 0 <= j < i - 1 ==> reg_line_ok(#[trigger] rows[j]),
            reg.wf(),
            reg@ == reg_map(rows.take(i - 1)),
        decreases lines@.len() - i,
    {
        let line = &lines[i];
        proof {
            assert(rows[i - 1] == line@);
        }
        if line.len() < 19 {
            return Err(LogError::ShortLine);
        }
        let ap = copy_field(line, 0, 15);
        let building = copy_field(line, 16, 19);
        reg.insert(ap, building);
        proof {
            assert(rows.take(i as int).drop_last() =~= rows.take(i - 1));
            assert(rows.take(i as int).last() == rows[i - 1]);
        }
        i = i + 1;
    }
    proof {
        assert(rows.take(i - 1) =~= rows);
    }
    Ok(reg)
}

} // verus!
