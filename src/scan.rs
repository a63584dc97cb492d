//! Parsing of one partition: a forward scan over its lines.

use vstd::prelude::*;
use crate::aggregate::{add_reading, Extremes, PartitionAggregate};
use crate::record::{
    index_of_from, lemma_index_of_from_bounds, parse_line, parse_record, ParseError, NEWLINE,
};

verus! {

/// The aggregate of the lines of `s[i..hi)` added to `acc`. A line ends at a
/// newline; the last line of the range may end at `hi` instead, but only where
/// `at_eof` says that the input ends there.
pub open spec fn parse_lines(
    s: Seq<u8>,
    i: int,
    hi: int,
    at_eof: bool,
    acc: Map<Seq<u8>, Extremes>,
) -> Result<Map<Seq<u8>, Extremes>, ParseError>
    decreases hi - i,
    via parse_lines_decreases
{
    if i >= hi {
        Ok(acc)
    } else {
        let j = index_of_from(s, NEWLINE, i, hi);
        if j == hi && !at_eof {
            Err(ParseError::Unterminated)
        } else {
            match parse_line(s.subrange(i, j)) {
                Ok((k, v)) => {
                    let next = if j < hi {
                        j + 1
                    } else {
                        hi
                    };
                    parse_lines(s, next, hi, at_eof, add_reading(acc, k, v))
                },
                Err(e) => Err(e),
            }
        }
    }
}

#[via_fn]
proof fn parse_lines_decreases(
    s: Seq<u8>,
    i: int,
    hi: int,
    at_eof: bool,
    acc: Map<Seq<u8>, Extremes>,
) {
    if i < hi {
        lemma_index_of_from_bounds(s, NEWLINE, i, hi);
    }
}

/// The aggregate of the lines of `s[lo..hi)`.
pub fn parse_partition(s: &[u8], lo: usize, hi: usize, at_eof: bool) -> (r: Result<
    PartitionAggregate,
    ParseError,
>)
    requires
        lo <= hi <= s@.len(),
    ensures
        match parse_lines(s@, lo as int, hi as int, at_eof, Map::empty()) {
            Ok(m) => r matches Ok(a) && a.wf() && a@ == m,
            Err(e) => r matches Err(x) && x == e,
        },
{
    let mut acc = PartitionAggregate::new();
    let mut i: usize = lo;
    while i < hi
        invariant
            lo <= i <= hi <= s@.len(),
            acc.wf(),
            parse_lines(s@, lo as int, hi as int, at_eof, Map::empty()) == parse_lines(
                s@,
                i as int,
                hi as int,
                at_eof,
                acc@,
            ),
        decreases hi - i,
    {
        let mut j: usize = i;
        while j < hi && s[j] != NEWLINE
            invariant
                i <= j <= hi <= s@.len(),
                index_of_from(s@, NEWLINE, i as int, hi as int) == index_of_from(
                    s@,
                    NEWLINE,
                    j as int,
                    hi as int,
                ),
            decreases hi - j,
        {
            j = j + 1;
        }
        proof {
            lemma_index_of_from_bounds(s@, NEWLINE, i as int, hi as int);
        }
        if j == hi && !at_eof {
            return Err(ParseError::Unterminated);
        }
        match parse_record(s, i, j) {
            Ok((d, v)) => {
                acc.add(s, i, d, v);
                proof {
                    assert(s@.subrange(i as int, j as int).subrange(0, d - i) =~= s@.subrange(
                        i as int,
                        d as int,
                    ));
                }
            },
            Err(e) => {
                return Err(e);
            },
        }
        if j == hi {
            i = hi;
        } else {
            i = j + 1;
        }
    }
    Ok(acc)
}

/// The aggregate of a buffer that holds whole records; its last record may
/// end without a newline.
pub fn parse_chunk_bytes(buffer: Vec<u8>) -> (r: Result<PartitionAggregate, ParseError>)
    ensures
        match parse_lines(buffer@, 0, buffer@.len() as int, true, Map::empty()) {
            Ok(m) => r matches Ok(a) && a.wf() && a@ == m,
            Err(e) => r matches Err(x) && x == e,
        },
{
    let n = buffer.len();
    parse_partition(buffer.as_slice(), 0, n, true)
}

} // verus!
