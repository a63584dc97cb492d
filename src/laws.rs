//! Properties of the whole computation that relate several calls.

use vstd::prelude::*;
use crate::aggregate::{add_reading, merge_maps, Extremes};
use crate::partition::{
    aligned_cover, lemma_ranges_from_aligned, partition_spec, range_end, ranges_from,
};
use crate::pipeline::{merge_all_spec, parse_range_spec, run_ranges};
use crate::record::{index_of_from, lemma_index_of_from_bounds, parse_line, NEWLINE};
use crate::scan::parse_lines;

verus! {

/// Merging an empty aggregate into an aggregate, on either side, leaves it as it was.
pub proof fn lemma_merge_empty_is_identity(g: Map<Seq<u8>, Extremes>)
    ensures
        merge_maps(g, Map::empty()) == g,
        merge_maps(Map::empty(), g) == g,
{
    assert(merge_maps(g, Map::empty()) =~= g);
    assert(merge_maps(Map::empty(), g) =~= g);
}

/// The merge does not depend on the order of its two arguments.
pub proof fn lemma_merge_commutative(a: Map<Seq<u8>, Extremes>, b: Map<Seq<u8>, Extremes>)
    ensures
        merge_maps(a, b) == merge_maps(b, a),
{
    assert(merge_maps(a, b) =~= merge_maps(b, a));
}

/// The merge does not depend on how three aggregates are grouped.
pub proof fn lemma_merge_associative(
    a: Map<Seq<u8>, Extremes>,
    b: Map<Seq<u8>, Extremes>,
    c: Map<Seq<u8>, Extremes>,
)
    ensures
        merge_maps(merge_maps(a, b), c) == merge_maps(a, merge_maps(b, c)),
{
    assert(merge_maps(merge_maps(a, b), c) =~= merge_maps(a, merge_maps(b, c)));
}

/// Merging all aggregates but the one at `j`, and then that one, gives the
/// same as merging them in order.
proof fn lemma_merge_all_remove(ms: Seq<Map<Seq<u8>, Extremes>>, j: int)
    requires
        0 <= j < ms.len(),
    ensures
        merge_all_spec(ms) == merge_maps(merge_all_spec(ms.remove(j)), ms[j]),
    decreases ms.len(),
{
    if j == ms.len() - 1 {
        assert(ms.remove(j) =~= ms.drop_last());
    } else {
        let rest = ms.drop_last();
        lemma_merge_all_remove(rest, j);
        let x = merge_all_spec(rest.remove(j));
        assert(ms.remove(j).drop_last() =~= rest.remove(j));
        assert(ms.remove(j).last() == ms.last());
        lemma_merge_associative(x, ms[j], ms.last());
        lemma_merge_commutative(ms[j], ms.last());
        lemma_merge_associative(x, ms.last(), ms[j]);
    }
}

/// Merging the same aggregates in any order gives the same global aggregate.
pub proof fn lemma_merge_order_independent(
    a: Seq<Map<Seq<u8>, Extremes>>,
    b: Seq<Map<Seq<u8>, Extremes>>,
)
    requires
        a.to_multiset() == b.to_multiset(),
    ensures
        merge_all_spec(a) == merge_all_spec(b),
    decreases a.len(),
{
    broadcast use vstd::seq_lib::group_to_multiset_ensures, vstd::multiset::group_multiset_axioms;

    if a.len() == 0 {
        assert(b.to_multiset().len() == 0);
        assert(b.len() == 0);
    } else {
        let x = a.last();
        let rest = a.drop_last();
        assert(rest.push(x) =~= a);
        assert(a.to_multiset() =~= rest.to_multiset().insert(x));
        assert(b.to_multiset().count(x) > 0);
        assert(b.contains(x));
        let j = choose|j: int| 0 <= j < b.len() && b[j] == x;
        assert(b.remove(j).to_multiset() =~= b.to_multiset().remove(x));
        assert(rest.to_multiset() =~= b.remove(j).to_multiset());
        lemma_merge_order_independent(rest, b.remove(j));
        lemma_merge_all_remove(b, j);
    }
}

proof fn lemma_add_reading_merge(
    acc: Map<Seq<u8>, Extremes>,
    m: Map<Seq<u8>, Extremes>,
    k: Seq<u8>,
    v: int,
)
    ensures
        add_reading(merge_maps(acc, m), k, v) == merge_maps(acc, add_reading(m, k, v)),
{
    assert(add_reading(merge_maps(acc, m), k, v) =~= merge_maps(acc, add_reading(m, k, v)));
}

proof fn lemma_index_of_from_narrow(s: Seq<u8>, b: u8, i: int, e: int, hi: int)
    requires
        0 <= i < e <= hi,
        e <= s.len(),
        s[e - 1] == b,
    ensures
        index_of_from(s, b, i, hi) == index_of_from(s, b, i, e),
        index_of_from(s, b, i, e) < e,
    decreases e - i,
{
    if s[i] != b {
        lemma_index_of_from_narrow(s, b, i + 1, e, hi);
    }
}

/// Parsing up to a line boundary `e` and going on from there is parsing in one go.
proof fn lemma_parse_lines_split(
    s: Seq<u8>,
    i: int,
    e: int,
    hi: int,
    at_eof: bool,
    acc: Map<Seq<u8>, Extremes>,
)
    requires
        0 <= i <= e <= hi <= s.len(),
        e == i || s[e - 1] == NEWLINE,
    ensures
        parse_lines(s, i, hi, at_eof, acc) == match parse_lines(s, i, e, false, acc) {
            Ok(m) => parse_lines(s, e, hi, at_eof, m),
            Err(x) => Err(x),
        },
    decreases e - i,
{
    if i < e {
        lemma_index_of_from_narrow(s, NEWLINE, i, e, hi);
        lemma_index_of_from_bounds(s, NEWLINE, i, e);
        let j = index_of_from(s, NEWLINE, i, e);
        match parse_line(s.subrange(i, j)) {
            Ok((k, v)) => {
                lemma_parse_lines_split(s, j + 1, e, hi, at_eof, add_reading(acc, k, v));
            },
            Err(_) => {},
        }
    }
}

/// Parsing onto an accumulated aggregate is parsing alone and merging after.
proof fn lemma_parse_lines_acc(
    s: Seq<u8>,
    i: int,
    hi: int,
    at_eof: bool,
    acc: Map<Seq<u8>, Extremes>,
    m0: Map<Seq<u8>, Extremes>,
)
    requires
        0 <= i <= hi <= s.len(),
    ensures
        parse_lines(s, i, hi, at_eof, merge_maps(acc, m0)) == match parse_lines(
            s,
            i,
            hi,
            at_eof,
            m0,
        ) {
            Ok(m) => Ok(merge_maps(acc, m)),
            Err(x) => Err(x),
        },
    decreases hi - i,
{
    if i < hi {
        lemma_index_of_from_bounds(s, NEWLINE, i, hi);
        let j = index_of_from(s, NEWLINE, i, hi);
        if !(j == hi && !at_eof) {
            match parse_line(s.subrange(i, j)) {
                Ok((k, v)) => {
                    lemma_add_reading_merge(acc, m0, k, v);
                    let next = if j < hi {
                        j + 1
                    } else {
                        hi
                    };
                    lemma_parse_lines_acc(s, next, hi, at_eof, acc, add_reading(m0, k, v));
                },
                Err(_) => {},
            }
        }
    }
}

proof fn lemma_run_ranges_prefix(s: Seq<u8>, rs: Seq<(int, int)>, m: int)
    requires
        aligned_cover(s, 0, rs),
        1 <= m <= rs.len(),
    ensures
        run_ranges(s, rs.subrange(0, m)) == parse_lines(
            s,
            0,
            rs[m - 1].1,
            rs[m - 1].1 == s.len(),
            Map::empty(),
        ),
    decreases m,
{
    let pre = rs.subrange(0, m);
    assert(pre.drop_last() =~= rs.subrange(0, m - 1));
    assert(pre.last() == rs[m - 1]);
    let a = rs[m - 1].0;
    let e = rs[m - 1].1;
    assert(0 <= a < e <= s.len());
    if m == 1 {
        assert(rs.subrange(0, 0) =~= Seq::<(int, int)>::empty());
        match parse_range_spec(s, rs[0]) {
            Ok(x) => lemma_merge_empty_is_identity(x),
            Err(_) => {},
        }
    } else {
        lemma_run_ranges_prefix(s, rs, m - 1);
        assert(rs[m - 2].1 == a);
        lemma_parse_lines_split(s, 0, a, e, e == s.len(), Map::empty());
        match parse_lines(s, 0, a, false, Map::empty()) {
            Ok(g) => {
                lemma_merge_empty_is_identity(g);
                lemma_parse_lines_acc(s, a, e, e == s.len(), g, Map::empty());
            },
            Err(_) => {},
        }
    }
}

/// The partitions of `s` for any number of workers aggregate to what the
/// whole input parsed as one partition does, errors included.
pub proof fn lemma_partitioned_run_matches_whole(s: Seq<u8>, target_count: nat)
    requires
        target_count > 0,
    ensures
        run_ranges(s, partition_spec(s, target_count)) == run_ranges(
            s,
            seq![(0int, s.len() as int)],
        ),
        run_ranges(s, partition_spec(s, target_count)) == parse_lines(
            s,
            0,
            s.len() as int,
            true,
            Map::empty(),
        ),
{
    let ideal = s.len() as int / target_count as int;
    let rs = partition_spec(s, target_count);
    let whole = seq![(0int, s.len() as int)];
    if s.len() == 0 {
        assert(rs == Seq::<(int, int)>::empty());
        assert(whole.drop_last() =~= Seq::<(int, int)>::empty());
        lemma_merge_empty_is_identity(Map::empty());
    } else {
        lemma_ranges_from_aligned(s, 0, ideal);
        lemma_run_ranges_prefix(s, rs, rs.len() as int);
        assert(rs.subrange(0, rs.len() as int) =~= rs);
        assert(aligned_cover(s, 0, whole));
        lemma_run_ranges_prefix(s, whole, 1);
        assert(whole.subrange(0, 1) =~= whole);
    }
}

/// An input shorter than the number of workers is one partition.
pub proof fn lemma_small_input_is_one_partition(s: Seq<u8>, target_count: nat)
    requires
        0 < s.len() < target_count,
    ensures
        partition_spec(s, target_count) == seq![(0int, s.len() as int)],
{
    let n = s.len() as int;
    let t = target_count as int;
    assert(n / t == 0) by (nonlinear_arith)
        requires
            0 < n < t,
    ;
    assert(range_end(s, 0, 0) == n);
    assert(ranges_from(s, n, 0) == Seq::<(int, int)>::empty());
    assert(partition_spec(s, target_count) =~= seq![(0int, n)]);
}

} // verus!
