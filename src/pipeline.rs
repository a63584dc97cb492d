//! The whole computation: partition, parse each partition, merge.

use vstd::prelude::*;
use crate::aggregate::{merge_maps, Extremes, GlobalAggregate, PartitionAggregate};
use crate::partition::{partition, partition_spec, ranges_view, PartitionRange};
use crate::record::ParseError;
use crate::render::{render, render_lines};
use crate::scan::{parse_lines, parse_partition};

verus! {

/// Why a run failed.
#[derive(Clone, Copy, Debug, PartialEq, Eq, Structural)]
pub enum RunError {
    /// A range that does not lie within the input.
    Range { start: usize, end: usize },
    /// A malformed record in the partition that starts at byte `start`.
    Parse { start: usize, error: ParseError },
}

/// The aggregate of the partition `r` of `s`; only the partition that ends
/// where the input ends may close its last record without a newline.
pub open spec fn parse_range_spec(s: Seq<u8>, r: (int, int)) -> Result<
    Map<Seq<u8>, Extremes>,
    ParseError,
> {
    parse_lines(s, r.0, r.1, r.1 == s.len(), Map::empty())
}

/// The merged aggregates of the partitions `rs` of `s`, or the first error in
/// the order of the partitions.
pub open spec fn run_ranges(s: Seq<u8>, rs: Seq<(int, int)>) -> Result<
    Map<Seq<u8>, Extremes>,
    ParseError,
>
    decreases rs.len(),
{
    if rs.len() == 0 {
        Ok(Map::empty())
    } else {
        match run_ranges(s, rs.drop_last()) {
            Ok(g) => match parse_range_spec(s, rs.last()) {
                Ok(m) => Ok(merge_maps(g, m)),
                Err(e) => Err(e),
            },
            Err(e) => Err(e),
        }
    }
}

/// The aggregates `ms` merged one after the other into an empty aggregate.
pub open spec fn merge_all_spec(ms: Seq<Map<Seq<u8>, Extremes>>) -> Map<Seq<u8>, Extremes>
    decreases ms.len(),
{
    if ms.len() == 0 {
        Map::empty()
    } else {
        merge_maps(merge_all_spec(ms.drop_last()), ms.last())
    }
}

proof fn lemma_run_ranges_error_persists(s: Seq<u8>, rs: Seq<(int, int)>, m: int)
    requires
        0 <= m <= rs.len(),
        run_ranges(s, rs.subrange(0, m)) is Err,
    ensures
        run_ranges(s, rs) == run_ranges(s, rs.subrange(0, m)),
    decreases rs.len(),
{
    if m == rs.len() {
        assert(rs.subrange(0, m) =~= rs);
    } else {
        assert(rs.drop_last().subrange(0, m) =~= rs.subrange(0, m));
        lemma_run_ranges_error_persists(s, rs.drop_last(), m);
    }
}

/// Parses the partition `r` of `s`.
pub fn parse_range(s: &[u8], r: PartitionRange) -> (res: Result<PartitionAggregate, RunError>)
    ensures
        r.start > r.end || r.end > s@.len() ==> res == Err::<PartitionAggregate, RunError>(
            RunError::Range { start: r.start, end: r.end },
        ),
        r.start <= r.end <= s@.len() ==> match parse_range_spec(
            s@,
            (r.start as int, r.end as int),
        ) {
            Ok(m) => res matches Ok(a) && a.wf() && a@ == m,
            Err(e) => res == Err::<PartitionAggregate, RunError>(
                RunError::Parse { start: r.start, error: e },
            ),
        },
{
    if r.start > r.end || r.end > s.len() {
        return Err(RunError::Range { start: r.start, end: r.end });
    }
    match parse_partition(s, r.start, r.end, r.end == s.len()) {
        Ok(a) => Ok(a),
        Err(e) => Err(RunError::Parse { start: r.start, error: e }),
    }
}

/// Merges the aggregates of all partitions, in the order given.
pub fn merge_all(parts: &Vec<PartitionAggregate>) -> (g: GlobalAggregate)
    requires
        forall|i: int| 0 <= i < parts@.len() ==> (#[trigger] parts@[i]).wf(),
    ensures
        g.wf(),
        g@ == merge_all_spec(parts@.map_values(|p: PartitionAggregate| p@)),
{
    let ghost views = parts@.map_values(|p: PartitionAggregate| p@);
    let mut g = GlobalAggregate::new();
    let mut i: usize = 0;
    while i < parts.len()
        invariant
            i <= parts@.len(),
            forall|i: int| 0 <= i < parts@.len() ==> (#[trigger] parts@[i]).wf(),
            views == parts@.map_values(|p: PartitionAggregate| p@),
            g.wf(),
            g@ == merge_all_spec(views.subrange(0, i as int)),
        decreases parts@.len() - i,
    {
        g.merge(&parts[i]);
        proof {
            assert(views.subrange(0, i + 1).drop_last() =~= views.subrange(0, i as int));
        }
        i = i + 1;
    }
    assert(views.subrange(0, i as int) =~= views);
    g
}

/// Computes the global aggregate of `s` on one thread: partitions it for
/// `target_count` workers, parses the partitions in order and merges them.
pub fn aggregate(s: &[u8], target_count: usize) -> (res: Result<GlobalAggregate, RunError>)
    requires
        target_count > 0,
    ensures
        match run_ranges(s@, partition_spec(s@, target_count as nat)) {
            Ok(m) => res matches Ok(g) && g.wf() && g@ == m,
            Err(e) => res matches Err(RunError::Parse { error, .. }) && error == e,
        },
{
    let ranges = partition(s, target_count);
    let ghost rs = ranges_view(ranges@);
    let mut g = GlobalAggregate::new();
    let mut i: usize = 0;
    while i < ranges.len()
        invariant
            i <= ranges@.len(),
            rs == ranges_view(ranges@),
            rs == partition_spec(s@, target_count as nat),
            crate::partition::aligned_cover(s@, 0, rs),
            g.wf(),
            run_ranges(s@, rs.subrange(0, i as int)) == Ok::<Map<Seq<u8>, Extremes>, ParseError>(g@),
        decreases ranges@.len() - i,
    {
        let r = ranges[i];
        let ghost pre = rs.subrange(0, i + 1);
        proof {
            assert(rs[i as int] == (r.start as int, r.end as int));
            assert(0 <= rs[i as int].0 < rs[i as int].1 <= s@.len());
            assert(pre.drop_last() =~= rs.subrange(0, i as int));
            assert(pre.last() == rs[i as int]);
        }
        let ghost g0 = g@;
        match parse_range(s, r) {
            Ok(a) => {
                g.merge(&a);
                assert(run_ranges(s@, pre) == Ok::<Map<Seq<u8>, Extremes>, ParseError>(merge_maps(g0, a@)));
            },
            Err(e) => {
                proof {
                    assert(run_ranges(s@, pre) is Err);
                    lemma_run_ranges_error_persists(s@, rs, i + 1);
                }
                return Err(e);
            },
        }
        i = i + 1;
    }
    assert(rs.subrange(0, i as int) =~= rs);
    Ok(g)
}

/// The report of `s`, computed on one thread for `target_count` partitions:
/// one `key;min;mean;max` line per key, in order of first sight.
pub fn report(s: &[u8], target_count: usize) -> (res: Result<Vec<u8>, RunError>)
    requires
        target_count > 0,
    ensures
        match run_ranges(s@, partition_spec(s@, target_count as nat)) {
            Ok(m) => res matches Ok(text) && exists|g: GlobalAggregate|
                g.wf() && g@ == m && text@ == render_lines(g.summaries()),
            Err(e) => res matches Err(RunError::Parse { error, .. }) && error == e,
        },
{
    match aggregate(s, target_count) {
        Ok(g) => {
            let text = render(&g);
            Ok(text)
        },
        Err(e) => Err(e),
    }
}

} // verus!
