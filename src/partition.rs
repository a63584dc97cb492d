//! Newline-aligned partitioning of the input into contiguous byte ranges.

use vstd::prelude::*;
use crate::record::NEWLINE;

verus! {

/// The half-open byte range `[start, end)` of one partition.
#[derive(Clone, Copy, Debug, PartialEq, Eq, Structural)]
pub struct PartitionRange {
    pub start: usize,
    pub end: usize,
}

/// A sequence of partitions as pairs of offsets.
pub open spec fn ranges_view(rs: Seq<PartitionRange>) -> Seq<(int, int)> {
    rs.map_values(|r: PartitionRange| (r.start as int, r.end as int))
}

/// The greatest index in `[lo, hi)` at which `s` holds a newline, or `lo - 1`
/// if there is none.
pub open spec fn last_newline_before(s: Seq<u8>, lo: int, hi: int) -> int
    decreases hi - lo,
{
    if hi <= lo {
        lo - 1
    } else if s[hi - 1] == NEWLINE {
        hi - 1
    } else {
        last_newline_before(s, lo, hi - 1)
    }
}

proof fn lemma_last_newline_bounds(s: Seq<u8>, lo: int, hi: int)
    requires
        lo <= hi,
    ensures
        lo - 1 <= last_newline_before(s, lo, hi) < hi,
        last_newline_before(s, lo, hi) >= lo ==> s[last_newline_before(s, lo, hi)] == NEWLINE,
    decreases hi - lo,
{
    if hi > lo && s[hi - 1] != NEWLINE {
        lemma_last_newline_bounds(s, lo, hi - 1);
    }
}

/// Where the partition that starts at `cursor` ends: one past the last newline
/// among its first `ideal` bytes; at the end of the input where those bytes
/// reach it or hold no newline.
pub open spec fn range_end(s: Seq<u8>, cursor: int, ideal: int) -> int {
    if cursor + ideal >= s.len() {
        s.len() as int
    } else {
        let p = last_newline_before(s, cursor, cursor + ideal);
        if p >= cursor {
            p + 1
        } else {
            s.len() as int
        }
    }
}

proof fn lemma_range_end_bounds(s: Seq<u8>, cursor: int, ideal: int)
    requires
        0 <= cursor < s.len(),
        0 <= ideal,
    ensures
        cursor < range_end(s, cursor, ideal) <= s.len(),
        range_end(s, cursor, ideal) == s.len() || s[range_end(s, cursor, ideal) - 1] == NEWLINE,
{
    if cursor + ideal < s.len() {
        lemma_last_newline_bounds(s, cursor, cursor + ideal);
    }
}

/// The partitions of `s[cursor..)` for a stride of `ideal` bytes.
pub open spec fn ranges_from(s: Seq<u8>, cursor: int, ideal: int) -> Seq<(int, int)>
    decreases s.len() - cursor,
    when 0 <= cursor && 0 <= ideal
    via ranges_from_decreases
{
    if cursor >= s.len() {
        seq![]
    } else {
        let e = range_end(s, cursor, ideal);
        seq![(cursor, e)] + ranges_from(s, e, ideal)
    }
}

#[via_fn]
proof fn ranges_from_decreases(s: Seq<u8>, cursor: int, ideal: int) {
    if cursor < s.len() {
        lemma_range_end_bounds(s, cursor, ideal);
    }
}

/// The partitions of the whole input for `target_count` workers.
pub open spec fn partition_spec(s: Seq<u8>, target_count: nat) -> Seq<(int, int)>
    recommends
        target_count > 0,
{
    ranges_from(s, 0, s.len() as int / target_count as int)
}

/// `rs` cuts `s[from..)` into non-empty, contiguous ranges, each of which ends
/// just after a newline or at the end of the input.
pub open spec fn aligned_cover(s: Seq<u8>, from: int, rs: Seq<(int, int)>) -> bool {
    &&& rs.len() == 0 <==> from == s.len()
    &&& rs.len() > 0 ==> rs[0].0 == from && rs.last().1 == s.len()
    &&& forall|i: int| 0 <= i < rs.len() ==> 0 <= (#[trigger] rs[i]).0 < rs[i].1 <= s.len()
    &&& forall|i: int| 0 <= i < rs.len() - 1 ==> (#[trigger] rs[i]).1 == rs[i + 1].0
    &&& forall|i: int|
        0 <= i < rs.len() ==> (#[trigger] rs[i]).1 == s.len() || s[rs[i].1 - 1] == NEWLINE
}

/// The bytes of the ranges `rs` of `s`, one after the other.
pub open spec fn concat_ranges(s: Seq<u8>, rs: Seq<(int, int)>) -> Seq<u8>
    decreases rs.len(),
{
    if rs.len() == 0 {
        seq![]
    } else {
        s.subrange(rs[0].0, rs[0].1) + concat_ranges(s, rs.drop_first())
    }
}

pub proof fn lemma_ranges_from_aligned(s: Seq<u8>, cursor: int, ideal: int)
    requires
        0 <= cursor <= s.len(),
        0 <= ideal,
    ensures
        aligned_cover(s, cursor, ranges_from(s, cursor, ideal)),
        concat_ranges(s, ranges_from(s, cursor, ideal)) == s.subrange(cursor, s.len() as int),
    decreases s.len() - cursor,
{
    let rs = ranges_from(s, cursor, ideal);
    if cursor == s.len() {
        assert(s.subrange(cursor, s.len() as int) =~= seq![]);
    } else {
        lemma_range_end_bounds(s, cursor, ideal);
        let e = range_end(s, cursor, ideal);
        let tail = ranges_from(s, e, ideal);
        lemma_ranges_from_aligned(s, e, ideal);
        assert(rs == seq![(cursor, e)] + tail);
        assert(rs.drop_first() =~= tail);
        assert forall|i: int| 0 <= i < rs.len() - 1 implies (#[trigger] rs[i]).1 == rs[i + 1].0 by {
            if i > 0 {
                assert(rs[i] == tail[i - 1]);
                assert(rs[i + 1] == tail[i]);
            }
        }
        assert forall|i: int| 0 <= i < rs.len() implies 0 <= (#[trigger] rs[i]).0 < rs[i].1 <= s.len() && (rs[i].1
            == s.len() || s[rs[i].1 - 1] == NEWLINE) by {
            if i > 0 {
                assert(rs[i] == tail[i - 1]);
            }
        }
        if tail.len() > 0 {
            assert(rs.last() == tail.last());
        }
        assert(s.subrange(cursor, s.len() as int) =~= s.subrange(cursor, e) + s.subrange(
            e,
            s.len() as int,
        ));
    }
}

/// Cuts `s` into newline-aligned ranges for `target_count` workers: each range
/// takes up to `s.len() / target_count` bytes and ends just after the last
/// newline among them; a range whose bytes hold no newline, or that reaches the
/// end, extends to the end of the input.
pub fn partition(s: &[u8], target_count: usize) -> (r: Vec<PartitionRange>)
    requires
        target_count > 0,
    ensures
        ranges_view(r@) == partition_spec(s@, target_count as nat),
        aligned_cover(s@, 0, ranges_view(r@)),
{
    let n = s.len();
    let ideal = n / target_count;
    let mut out: Vec<PartitionRange> = Vec::new();
    let mut cursor: usize = 0;
    while cursor < n
        invariant
            n == s@.len(),
            ideal == s@.len() as int / target_count as int,
            cursor <= n,
            ranges_from(s@, 0, ideal as int) == ranges_view(out@) + ranges_from(
                s@,
                cursor as int,
                ideal as int,
            ),
        decreases n - cursor,
    {
        let end: usize = if ideal >= n - cursor {
            n
        } else {
            let mut p: usize = cursor + ideal;
            while p > cursor && s[p - 1] != NEWLINE
                invariant
                    cursor <= p <= cursor + ideal < n == s@.len(),
                    last_newline_before(s@, cursor as int, (cursor + ideal) as int)
                        == last_newline_before(s@, cursor as int, p as int),
                decreases p,
            {
                p = p - 1;
            }
            if p > cursor {
                p
            } else {
                n
            }
        };
        proof {
            lemma_range_end_bounds(s@, cursor as int, ideal as int);
            assert(end == range_end(s@, cursor as int, ideal as int));
        }
        let ghost before = out@;
        out.push(PartitionRange { start: cursor, end });
        proof {
            assert(ranges_view(out@) =~= ranges_view(before) + seq![(cursor as int, end as int)]);
            assert(ranges_from(s@, cursor as int, ideal as int) == seq![(cursor as int, end as int)]
                + ranges_from(s@, end as int, ideal as int));
            assert(ranges_view(before) + ranges_from(s@, cursor as int, ideal as int) =~= ranges_view(out@)
                + ranges_from(s@, end as int, ideal as int));
        }
        cursor = end;
    }
    proof {
        assert(ranges_view(out@) + ranges_from(s@, n as int, ideal as int) =~= ranges_view(out@));
        lemma_ranges_from_aligned(s@, 0, ideal as int);
    }
    out
}

/// Concatenating the bytes of the partitions reproduces the input exactly: no
/// byte is lost, repeated or moved.
pub proof fn lemma_partition_reassembles(s: Seq<u8>, target_count: nat)
    requires
        target_count > 0,
    ensures
        concat_ranges(s, partition_spec(s, target_count)) == s,
{
    lemma_ranges_from_aligned(s, 0, s.len() as int / target_count as int);
    assert(s.subrange(0, s.len() as int) =~= s);
}

} // verus!
