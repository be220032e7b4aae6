//! Rendering one matched line: the line's bytes with every match span set
//! off by marker byte sequences, without altering the text itself.

use vstd::prelude::*;
use vstd::string::*;
use crate::matcher::spans_wf;

verus! {

/// The bytes of `line` from `pos` on, with `open_mark` inserted before each
/// span and `close_mark` after it. Meaningful when the spans are sorted,
/// non-overlapping, within the line, and at or past `pos`.
pub open spec fn highlighted(
    line: Seq<u8>,
    spans: Seq<(usize, usize)>,
    pos: int,
    open_mark: Seq<u8>,
    close_mark: Seq<u8>,
) -> Seq<u8>
    decreases spans.len(),
{
    if spans.len() == 0 {
        line.subrange(pos, line.len() as int)
    } else {
        line.subrange(pos, spans[0].0 as int) + open_mark + line.subrange(
            spans[0].0 as int,
            spans[0].1 as int,
        ) + close_mark + highlighted(line, spans.skip(1), spans[0].1 as int, open_mark, close_mark)
    }
}

/// Checks that the spans fit a line of `n` bytes: sorted, within bounds, and
/// non-overlapping.
pub fn spans_fit(spans: &Vec<(usize, usize)>, n: usize) -> (r: bool)
    ensures
        r == spans_wf(spans@, n as int),
{
    let mut k: usize = 0;
    while k < spans.len()
        invariant
            k <= spans@.len(),
            forall|t: int|
                0 <= t < k ==> ((#[trigger] spans@[t]).0 <= spans@[t].1 && spans@[t].1 <= n),
            forall|t: int|
                1 <= t < k ==> ((#[trigger] spans@[t - 1]).1 <= spans@[t].0 && spans@[t - 1].0
                    < spans@[t].0),
        decreases spans@.len() - k,
    {
        let sp = spans[k];
        if sp.0 > sp.1 || sp.1 > n {
            return false;
        }
        if k > 0 {
            let prev = spans[k - 1];
            if prev.1 > sp.0 || prev.0 >= sp.0 {
                return false;
            }
        }
        k += 1;
    }
    proof {
        assert forall|t: int| 0 <= t < spans@.len() - 1 implies ((#[trigger] spans@[t]).1
            <= spans@[t + 1].0 && spans@[t].0 < spans@[t + 1].0) by {
            assert(spans@[(t + 1) - 1].1 <= spans@[t + 1].0 && spans@[(t + 1) - 1].0 < spans@[t
                + 1].0);
        }
    }
    true
}

/// Appends `src[a..b]` to `out`.
fn push_range(out: &mut Vec<u8>, src: &Vec<u8>, a: usize, b: usize)
    requires
        a <= b <= src@.len(),
    ensures
        final(out)@ == old(out)@ + src@.subrange(a as int, b as int),
{
    let mut t: usize = a;
    proof {
        assert(out@ + src@.subrange(a as int, a as int) =~= out@);
    }
    while t < b
        invariant
            a <= t <= b <= src@.len(),
            out@ == old(out)@ + src@.subrange(a as int, t as int),
        decreases b - t,
    {
        out.push(src[t]);
        proof {
            assert(src@.subrange(a as int, t + 1) =~= src@.subrange(a as int, t as int).push(
                src@[t as int],
            ));
            assert(out@ =~= old(out)@ + src@.subrange(a as int, t + 1));
        }
        t += 1;
    }
}

/// Appends all of `src` to `out`.
fn push_all(out: &mut Vec<u8>, src: &Vec<u8>)
    ensures
        final(out)@ == old(out)@ + src@,
{
    push_range(out, src, 0, src.len());
    proof {
        assert(src@.subrange(0, src@.len() as int) =~= src@);
    }
}

/// One matched line rendered: the line's bytes with each span wrapped in the
/// marker byte sequences, in order. When the spans do not fit the line's
/// bytes, the line's bytes are returned unchanged.
#[verifier::rlimit(100)]
pub fn highlight_line(
    line: &str,
    spans: &Vec<(usize, usize)>,
    open_mark: &str,
    close_mark: &str,
) -> (r: Vec<u8>)
    ensures
        spans_wf(spans@, line.spec_bytes().len() as int) ==> r@ == highlighted(
            line.spec_bytes(),
            spans@,
            0,
            open_mark.spec_bytes(),
            close_mark.spec_bytes(),
        ),
        !spans_wf(spans@, line.spec_bytes().len() as int) ==> r@ == line.spec_bytes(),
{
    let bytes = line.as_bytes_vec();
    if !spans_fit(spans, bytes.len()) {
        return bytes;
    }
    let o = open_mark.as_bytes_vec();
    let c = close_mark.as_bytes_vec();
    let mut out: Vec<u8> = Vec::new();
    let mut pos: usize = 0;
    let mut k: usize = 0;
    proof {
        assert(spans@.skip(0) =~= spans@);
        assert(out@ + highlighted(bytes@, spans@, 0, o@, c@) =~= highlighted(
            bytes@,
            spans@,
            0,
            o@,
            c@,
        ));
    }
    while k < spans.len()
        invariant
            bytes@ == line.spec_bytes(),
            o@ == open_mark.spec_bytes(),
            c@ == close_mark.spec_bytes(),
            spans_wf(spans@, bytes@.len() as int),
            k <= spans@.len(),
            pos <= bytes@.len(),
            k < spans@.len() ==> pos <= spans@[k as int].0,
            out@ + highlighted(bytes@, spans@.skip(k as int), pos as int, o@, c@) == highlighted(
                bytes@,
                spans@,
                0,
                o@,
                c@,
            ),
        decreases spans@.len() - k,
    {
        let sp = spans[k];
        let ghost rest = spans@.skip(k as int);
        proof {
            assert(rest[0] == spans@[k as int]);
            assert(rest.skip(1) =~= spans@.skip(k + 1));
        }
        let ghost old_out = out@;
        push_range(&mut out, &bytes, pos, sp.0);
        push_all(&mut out, &o);
        push_range(&mut out, &bytes, sp.0, sp.1);
        push_all(&mut out, &c);
        proof {
            assert(highlighted(bytes@, rest, pos as int, o@, c@) == bytes@.subrange(
                pos as int,
                sp.0 as int,
            ) + o@ + bytes@.subrange(sp.0 as int, sp.1 as int) + c@ + highlighted(
                bytes@,
                spans@.skip(k + 1),
                sp.1 as int,
                o@,
                c@,
            ));
            assert(out@ + highlighted(bytes@, spans@.skip(k + 1), sp.1 as int, o@, c@)
                =~= highlighted(bytes@, spans@, 0, o@, c@));
            if k + 1 < spans@.len() {
                assert(spans@[k as int].1 <= spans@[k + 1].0);
            }
        }
        pos = sp.1;
        k += 1;
    }
    proof {
        assert(spans@.skip(spans@.len() as int) =~= Seq::<(usize, usize)>::empty());
        assert(highlighted(bytes@, spans@.skip(spans@.len() as int), pos as int, o@, c@)
            == bytes@.subrange(pos as int, bytes@.len() as int));
    }
    let n = bytes.len();
    push_range(&mut out, &bytes, pos, n);
    out
}

} // verus!
