//! Text report of a global aggregate: one `key;min;mean;max` line per key.

use vstd::prelude::*;
use crate::aggregate::GlobalAggregate;
use crate::record::{DOT, MINUS, NEWLINE, SEMICOLON};

verus! {

/// The decimal digits of `n`, most significant first, without leading zeros.
pub open spec fn decimal_digits(n: nat) -> Seq<u8>
    decreases n,
{
    if n < 10 {
        seq![(48 + n) as u8]
    } else {
        decimal_digits(n / 10) + seq![(48 + n % 10) as u8]
    }
}

pub open spec fn abs_int(v: int) -> nat {
    if v < 0 {
        (-v) as nat
    } else {
        v as nat
    }
}

/// A number of tenths written with exactly one fractional digit (`-32` is `-3.2`).
pub open spec fn render_tenths(v: int) -> Seq<u8> {
    let a = abs_int(v);
    let sign = if v < 0 {
        seq![MINUS]
    } else {
        Seq::<u8>::empty()
    };
    sign + decimal_digits(a / 10) + seq![DOT, (48 + a % 10) as u8]
}

/// The report line of one key: `key;min;mean;max`.
pub open spec fn render_line(e: (Seq<u8>, int, int, int)) -> Seq<u8> {
    e.0 + seq![SEMICOLON] + render_tenths(e.1) + seq![SEMICOLON] + render_tenths(e.2) + seq![
        SEMICOLON,
    ] + render_tenths(e.3)
}

/// The report lines of `es`, separated by newlines, with none after the last.
pub open spec fn render_lines(es: Seq<(Seq<u8>, int, int, int)>) -> Seq<u8>
    decreases es.len(),
{
    if es.len() == 0 {
        seq![]
    } else if es.len() == 1 {
        render_line(es[0])
    } else {
        render_lines(es.drop_last()) + seq![NEWLINE] + render_line(es.last())
    }
}

fn push_decimal(out: &mut Vec<u8>, n: u32)
    ensures
        final(out)@ == old(out)@ + decimal_digits(n as nat),
    decreases n,
{
    if n >= 10 {
        push_decimal(out, n / 10);
    }
    out.push((48 + n % 10) as u8);
    assert(final(out)@ =~= old(out)@ + decimal_digits(n as nat));
}

/// Appends `v` tenths with exactly one fractional digit.
pub fn push_tenths(out: &mut Vec<u8>, v: i16)
    ensures
        final(out)@ == old(out)@ + render_tenths(v as int),
{
    let a: u32 = if v < 0 {
        (0 - v as i32) as u32
    } else {
        v as u32
    };
    let ghost before = out@;
    if v < 0 {
        out.push(MINUS);
    }
    push_decimal(out, a / 10);
    out.push(DOT);
    out.push((48 + a % 10) as u8);
    assert(out@ =~= before + render_tenths(v as int));
}

fn push_bytes(out: &mut Vec<u8>, b: &[u8])
    ensures
        final(out)@ == old(out)@ + b@,
{
    let ghost before = out@;
    let mut j: usize = 0;
    while j < b.len()
        invariant
            j <= b@.len(),
            out@ == before + b@.subrange(0, j as int),
        decreases b@.len() - j,
    {
        out.push(b[j]);
        j = j + 1;
        assert(out@ =~= before + b@.subrange(0, j as int));
    }
    assert(b@.subrange(0, j as int) =~= b@);
}

/// The report of `g`: one line per key in order of first sight, fields
/// separated by `;`, numbers with one fractional digit, no final newline.
pub fn render(g: &GlobalAggregate) -> (r: Vec<u8>)
    requires
        g.wf(),
    ensures
        r@ == render_lines(g.summaries()),
{
    let mut out: Vec<u8> = Vec::new();
    let n = g.len();
    proof {
        g.lemma_summaries();
    }
    let mut i: usize = 0;
    while i < n
        invariant
            g.wf(),
            n == g.summaries().len(),
            i <= n,
            out@ == render_lines(g.summaries().subrange(0, i as int)),
        decreases n - i,
    {
        let (key, min, mean, max) = g.summary(i);
        let ghost before = out@;
        if i > 0 {
            out.push(NEWLINE);
        }
        push_bytes(&mut out, key);
        out.push(SEMICOLON);
        push_tenths(&mut out, min);
        out.push(SEMICOLON);
        push_tenths(&mut out, mean);
        out.push(SEMICOLON);
        push_tenths(&mut out, max);
        proof {
            let es = g.summaries().subrange(0, i + 1);
            assert(es.drop_last() =~= g.summaries().subrange(0, i as int));
            assert(es.last() == g.summaries()[i as int]);
            if i == 0 {
                assert(out@ =~= render_line(es[0]));
            } else {
                assert(out@ =~= before + seq![NEWLINE] + render_line(es.last()));
            }
        }
        i = i + 1;
    }
    assert(g.summaries().subrange(0, n as int) =~= g.summaries());
    out
}

} // verus!
