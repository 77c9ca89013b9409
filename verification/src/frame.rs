//! RESP frames: the wire data model, its byte-level encoding, and the
//! streaming decoder.
//!
//! Decoding runs in two passes over an incrementally filled buffer: a
//! non-allocating `check` pass that scans for one complete frame, then a
//! `parse` pass that builds the frame value. Encoding appends the canonical
//! byte form of a frame to a write buffer; arrays are encoded one level deep
//! only.

use vstd::prelude::*;

use crate::bulk::bytes_as_slice;
use crate::bulk::bytes_copy_from_slice;
use crate::bulk::bytes_len;
use crate::bulk::bytes_view;

verus! {

/// One RESP frame.
pub enum Frame {
    Simple(Vec<u8>),
    Error(Vec<u8>),
    Integer(u64),
    Bulk(bytes::Bytes),
    Null,
    Array(Vec<Frame>),
}

/// The mathematical shape of a frame: every payload a plain byte sequence.
pub enum FrameView {
    Simple(Seq<u8>),
    Error(Seq<u8>),
    Integer(u64),
    Bulk(Seq<u8>),
    Null,
    Array(Seq<FrameView>),
}

/// The mathematical value of a frame.
pub open spec fn frame_view(f: Frame) -> FrameView
    decreases f,
{
    match f {
        Frame::Simple(s) => FrameView::Simple(s@),
        Frame::Error(s) => FrameView::Error(s@),
        Frame::Integer(v) => FrameView::Integer(v),
        Frame::Bulk(b) => FrameView::Bulk(bytes_view(b)),
        Frame::Null => FrameView::Null,
        Frame::Array(elems) => FrameView::Array(frame_views(elems@)),
    }
}

/// The mathematical values of a sequence of frames.
pub open spec fn frame_views(s: Seq<Frame>) -> Seq<FrameView>
    decreases s,
{
    if s.len() == 0 {
        Seq::empty()
    } else {
        frame_views(s.drop_last()).push(frame_view(s.last()))
    }
}

impl View for Frame {
    type V = FrameView;

    open spec fn view(&self) -> FrameView {
        frame_view(*self)
    }
}

/// Outcome of a decoding pass.
#[derive(Clone, Copy, PartialEq, Eq, Structural, Debug)]
pub enum Error {
    /// Not enough data is buffered to hold one whole frame.
    Incomplete,
    /// The buffered bytes are not a valid frame; fatal to the connection.
    Invalid,
}

// ---------------------------------------------------------------------------
// The canonical wire form, as a specification.
// ---------------------------------------------------------------------------

/// The two-byte line terminator.
pub open spec fn crlf() -> Seq<u8> {
    seq![13u8, 10u8]
}

/// The canonical decimal digits of `n`, most significant first.
pub open spec fn dec_digits(n: nat) -> Seq<u8>
    decreases n,
{
    if n < 10 {
        seq![(48 + n) as u8]
    } else {
        dec_digits(n / 10).push((48 + n % 10) as u8)
    }
}

/// `s` consists only of ASCII digits (and is nonempty).
pub open spec fn is_digits(s: Seq<u8>) -> bool {
    s.len() > 0 && forall|i: int| 0 <= i < s.len() ==> 48 <= #[trigger] s[i] <= 57
}

/// The number denoted by a digit string.
pub open spec fn dec_val(s: Seq<u8>) -> int
    decreases s.len(),
{
    if s.len() == 0 {
        0
    } else {
        dec_val(s.drop_last()) * 10 + (s.last() - 48)
    }
}

/// A strict decimal: digits only, no leading zero beyond a single `0`.
pub open spec fn is_canonical_decimal(s: Seq<u8>) -> bool {
    is_digits(s) && (s[0] == 48 ==> s.len() == 1)
}

/// The canonical encoding of one frame. Arrays encode their header followed
/// by each element's encoding.
pub open spec fn frame_enc(f: FrameView) -> Seq<u8>
    decreases f,
{
    match f {
        FrameView::Simple(s) => seq![43u8] + s + crlf(),
        FrameView::Error(s) => seq![45u8] + s + crlf(),
        FrameView::Integer(v) => seq![58u8] + dec_digits(v as nat) + crlf(),
        FrameView::Bulk(p) => seq![36u8] + dec_digits(p.len()) + crlf() + p + crlf(),
        FrameView::Null => seq![36u8, 45u8, 49u8, 13u8, 10u8],
        FrameView::Array(elems) => seq![42u8] + dec_digits(elems.len()) + crlf()
            + frames_enc(elems),
    }
}

/// The concatenated encodings of a sequence of frames.
pub open spec fn frames_enc(elems: Seq<FrameView>) -> Seq<u8>
    decreases elems,
{
    if elems.len() == 0 {
        Seq::empty()
    } else {
        frames_enc(elems.drop_last()) + frame_enc(elems.last())
    }
}

/// No CRLF pair anywhere in the sequence.
pub open spec fn no_crlf(s: Seq<u8>) -> bool {
    forall|k: int| 0 <= k < s.len() - 1 ==> !(#[trigger] s[k] == 13 && s[k + 1] == 10)
}

/// A frame value that the wire can carry faithfully: line payloads hold no
/// CRLF pair.
pub open spec fn wf_frame(f: FrameView) -> bool
    decreases f,
{
    match f {
        FrameView::Simple(s) => no_crlf(s),
        FrameView::Error(s) => no_crlf(s),
        FrameView::Integer(_) => true,
        FrameView::Bulk(_) => true,
        FrameView::Null => true,
        FrameView::Array(elems) => forall|i: int|
            0 <= i < elems.len() ==> wf_frame(#[trigger] elems[i]),
    }
}

/// The canonical encoding of a well-formed frame `f` sits in `s` from `a`
/// to `b`.
pub open spec fn enc_at(s: Seq<u8>, a: int, b: int, f: FrameView) -> bool {
    &&& 0 <= a <= b <= s.len()
    &&& s.subrange(a, b) == frame_enc(f)
    &&& wf_frame(f)
}

/// The buffer from `a` to its end is a proper prefix of the canonical
/// encoding of a well-formed frame — one whose whole encoding this machine
/// could hold — so more bytes can still complete it.
pub open spec fn enc_prefix_at(s: Seq<u8>, a: int, f: FrameView) -> bool {
    &&& 0 <= a <= s.len()
    &&& wf_frame(f)
    &&& frame_enc(f).len() <= usize::MAX
    &&& s.len() - a < frame_enc(f).len()
    &&& s.subrange(a, s.len() as int) == frame_enc(f).subrange(0, s.len() - a)
}

/// The buffer holds a whole `$-` line at `a`: the null tag, a minus, and a
/// line end somewhere after.
pub open spec fn null_line_at(s: Seq<u8>, a: int) -> bool {
    0 <= a && a + 1 < s.len() && s[a] == 36 && s[a + 1] == 45 && exists|j: int|
        #[trigger] line_ends_at(s, a + 1, j)
}

/// The server encodes arrays one level deep only: an array's elements must
/// not themselves be arrays.
pub open spec fn encodable(f: FrameView) -> bool {
    match f {
        FrameView::Array(elems) => forall|i: int|
            0 <= i < elems.len() ==> !(#[trigger] elems[i] is Array),
        _ => true,
    }
}

// ---------------------------------------------------------------------------
// Facts about the canonical decimal form.
// ---------------------------------------------------------------------------

pub proof fn lemma_dec_digits_canonical(n: nat)
    ensures
        is_canonical_decimal(dec_digits(n)),
        dec_val(dec_digits(n)) == n,
        n < 10 <==> dec_digits(n).len() == 1,
    decreases n,
{
    if n < 10 {
        assert((48 + n) as u8 == 48 + n);
        assert(dec_digits(n) =~= seq![(48 + n) as u8]);
        assert(dec_digits(n).drop_last() =~= Seq::<u8>::empty());
        assert(dec_val(dec_digits(n)) == dec_val(Seq::<u8>::empty()) * 10 + (48 + n - 48));
    } else {
        lemma_dec_digits_canonical(n / 10);
        let d = dec_digits(n / 10);
        let s = dec_digits(n);
        assert(s =~= d.push((48 + n % 10) as u8));
        assert(s.drop_last() =~= d);
        assert(forall|i: int| 0 <= i < s.len() ==> 48 <= #[trigger] s[i] <= 57) by {
            assert(forall|i: int| 0 <= i < d.len() ==> 48 <= #[trigger] d[i] <= 57);
            assert(s.last() == (48 + n % 10) as u8);
        }
        assert(dec_val(s) == dec_val(d) * 10 + (n % 10));
    }
}

/// A strict decimal is the canonical form of its value: no two strict
/// decimals denote the same number.
pub proof fn lemma_canonical_decimal_unique(s: Seq<u8>)
    requires
        is_canonical_decimal(s),
    ensures
        dec_val(s) >= 0,
        dec_digits(dec_val(s) as nat) == s,
    decreases s.len(),
{
    if s.len() == 1 {
        assert(dec_val(s.drop_last()) == 0);
        assert(48 <= s[0] <= 57);
        assert(dec_val(s) == s[0] - 48);
        assert(dec_digits(dec_val(s) as nat) =~= s);
    } else {
        let d = s.drop_last();
        assert(48 <= s[0] <= 57 && s[0] != 48);
        assert(d[0] == s[0]);
        assert(is_canonical_decimal(d));
        lemma_canonical_decimal_unique(d);
        assert(dec_val(d) >= 1) by {
            if dec_val(d) == 0 {
                assert(dec_digits(0nat) =~= seq![48u8]);
                assert(d[0] == 48);
            }
        }
        let n = dec_val(s);
        assert(n == dec_val(d) * 10 + (s.last() - 48));
        assert(n >= 10) by {
            assert(dec_val(d) * 10 >= 10) by (nonlinear_arith)
                requires
                    dec_val(d) >= 1,
            ;
        }
        assert(n / 10 == dec_val(d) && n % 10 == s.last() - 48) by (nonlinear_arith)
            requires
                n == dec_val(d) * 10 + (s.last() - 48),
                0 <= s.last() - 48 < 10,
                dec_val(d) >= 0,
        ;
        assert(dec_digits(n as nat) =~= dec_digits(dec_val(d) as nat).push(s.last()));
        assert(dec_digits(n as nat) =~= s);
    }
}

/// Appending one frame to a sequence appends its encoding.
pub proof fn lemma_frames_enc_push(s: Seq<FrameView>, f: FrameView)
    ensures
        frames_enc(s.push(f)) == frames_enc(s) + frame_enc(f),
{
    let t = s.push(f);
    assert(t.drop_last() =~= s);
    assert(t.last() == f);
}

/// Appending one frame to a sequence of exec frames appends its view.
pub proof fn lemma_frame_views_push(s: Seq<Frame>, f: Frame)
    ensures
        frame_views(s.push(f)) == frame_views(s).push(frame_view(f)),
{
    let t = s.push(f);
    assert(t.drop_last() =~= s);
    assert(t.last() == f);
}

/// `frame_views` maps the sequence elementwise.
pub proof fn lemma_frame_views_index(s: Seq<Frame>)
    ensures
        frame_views(s).len() == s.len(),
        forall|i: int| 0 <= i < s.len() ==> #[trigger] frame_views(s)[i] == frame_view(s[i]),
    decreases s.len(),
{
    if s.len() > 0 {
        lemma_frame_views_index(s.drop_last());
        assert(forall|i: int|
            0 <= i < s.len() - 1 ==> #[trigger] s.drop_last()[i] == s[i]);
    }
}

/// Digits carry no CRLF pair.
pub proof fn lemma_digits_no_crlf(s: Seq<u8>)
    requires
        is_digits(s),
    ensures
        no_crlf(s),
{
}

/// An encoding is at least three bytes long.
pub proof fn lemma_enc_len(f: FrameView)
    ensures
        frame_enc(f).len() >= 3,
{
    match f {
        FrameView::Integer(v) => {
            assert(dec_digits(v as nat).len() >= 1) by {
                if v >= 10 {
                }
            }
        },
        FrameView::Bulk(p) => {
            assert(dec_digits(p.len()).len() >= 1) by {
                if p.len() >= 10 {
                }
            }
        },
        FrameView::Array(elems) => {
            assert(dec_digits(elems.len()).len() >= 1) by {
                if elems.len() >= 10 {
                }
            }
        },
        _ => {},
    }
}

/// A CRLF right after a CRLF-free payload is the first line end.
pub proof fn lemma_crlf_here(src: Seq<u8>, from: int, s: Seq<u8>)
    requires
        no_crlf(s),
        0 <= from,
        from + s.len() + 2 <= src.len(),
        src.subrange(from, from + s.len()) == s,
        src[from + s.len()] == 13,
        src[from + s.len() + 1] == 10,
    ensures
        line_ends_at(src, from, from + s.len()),
{
    assert forall|k: int|
        from <= k < from + s.len() implies !(#[trigger] src[k] == 13 && src[k + 1]
        == 10) by {
        if k < from + s.len() - 1 {
            assert(s[k - from] == src[k] && s[k - from + 1] == src[k + 1]);
        } else {
            assert(src[k + 1] == 13);
        }
    }
}

/// And so it is the line the scan finds.
pub proof fn lemma_line_is(src: Seq<u8>, from: int, s: Seq<u8>, j: int)
    requires
        no_crlf(s),
        0 <= from,
        from + s.len() + 2 <= src.len(),
        src.subrange(from, from + s.len()) == s,
        src[from + s.len()] == 13,
        src[from + s.len() + 1] == 10,
        line_ends_at(src, from, j),
    ensures
        j == from + s.len(),
        src.subrange(from, j) == s,
{
    lemma_crlf_here(src, from, s);
    lemma_line_end_unique(src, from, j, from + s.len());
}

/// The sequence encoding splits around any one element.
pub proof fn lemma_frames_enc_split(s: Seq<FrameView>, k: int)
    requires
        0 <= k < s.len(),
    ensures
        frames_enc(s) == frames_enc(s.subrange(0, k)) + frame_enc(s[k]) + frames_enc(
            s.subrange(k + 1, s.len() as int),
        ),
    decreases s.len(),
{
    if k == s.len() - 1 {
        assert(s.subrange(0, k) =~= s.drop_last());
        assert(s.subrange(k + 1, s.len() as int) =~= Seq::<FrameView>::empty());
        assert(frames_enc(s) =~= frames_enc(s.subrange(0, k)) + frame_enc(s[k]) + frames_enc(
            s.subrange(k + 1, s.len() as int),
        ));
    } else {
        let d = s.drop_last();
        lemma_frames_enc_split(d, k);
        assert(d.subrange(0, k) =~= s.subrange(0, k));
        assert(d[k] == s[k]);
        assert(d.subrange(k + 1, d.len() as int) =~= s.subrange(k + 1, s.len() - 1));
        lemma_frames_enc_push(s.subrange(k + 1, s.len() - 1), s.last());
        assert(s.subrange(k + 1, s.len() - 1).push(s.last()) =~= s.subrange(
            k + 1,
            s.len() as int,
        ));
        assert(frames_enc(s) =~= frames_enc(s.subrange(0, k)) + frame_enc(s[k]) + frames_enc(
            s.subrange(k + 1, s.len() as int),
        ));
    }
}

// ---------------------------------------------------------------------------
// Constructors.
// ---------------------------------------------------------------------------

impl Frame {
    /// An empty array frame.
    pub fn array() -> (f: Frame)
        ensures
            f@ == FrameView::Array(Seq::<FrameView>::empty()),
    {
        Frame::Array(Vec::new())
    }

    /// Push a bulk frame onto this array frame.
    pub fn push_bulk(&mut self, bytes: bytes::Bytes)
        requires
            old(self)@ is Array,
        ensures
            final(self)@ == FrameView::Array(
                old(self)@->Array_0.push(FrameView::Bulk(bytes_view(bytes))),
            ),
    {
        match self {
            Frame::Array(elems) => {
                let ghost before: Seq<Frame> = elems@;
                elems.push(Frame::Bulk(bytes));
                proof {
                    lemma_frame_views_push(before, Frame::Bulk(bytes));
                }
            },
            _ => {},
        }
    }

    /// Push an integer frame onto this array frame.
    pub fn push_int(&mut self, value: u64)
        requires
            old(self)@ is Array,
        ensures
            final(self)@ == FrameView::Array(
                old(self)@->Array_0.push(FrameView::Integer(value)),
            ),
    {
        match self {
            Frame::Array(elems) => {
                let ghost before: Seq<Frame> = elems@;
                elems.push(Frame::Integer(value));
                proof {
                    lemma_frame_views_push(before, Frame::Integer(value));
                }
            },
            _ => {},
        }
    }
}

// ---------------------------------------------------------------------------
// Encoding.
// ---------------------------------------------------------------------------

/// Append the decimal digits of `v`, most significant first.
fn push_digits(out: &mut Vec<u8>, v: u64)
    ensures
        final(out)@ == old(out)@ + dec_digits(v as nat),
    decreases v,
{
    if v < 10 {
        out.push((48 + v) as u8);
        assert(final(out)@ =~= old(out)@ + dec_digits(v as nat));
    } else {
        push_digits(out, v / 10);
        out.push((48 + v % 10) as u8);
        assert(final(out)@ =~= old(out)@ + dec_digits(v as nat));
    }
}

/// Append a decimal line: the digits of `v` followed by CRLF.
pub fn write_decimal(out: &mut Vec<u8>, v: u64)
    ensures
        final(out)@ == old(out)@ + dec_digits(v as nat) + crlf(),
{
    push_digits(out, v);
    out.push(13);
    out.push(10);
    assert(final(out)@ =~= old(out)@ + dec_digits(v as nat) + crlf());
}

/// Append the encoding of one non-array frame.
pub fn write_value(out: &mut Vec<u8>, f: &Frame)
    requires
        !(f@ is Array),
    ensures
        final(out)@ == old(out)@ + frame_enc(f@),
{
    match f {
        Frame::Simple(s) => {
            out.push(43);
            out.extend_from_slice(s.as_slice());
            out.push(13);
            out.push(10);
            assert(final(out)@ =~= old(out)@ + frame_enc(f@));
        },
        Frame::Error(s) => {
            out.push(45);
            out.extend_from_slice(s.as_slice());
            out.push(13);
            out.push(10);
            assert(final(out)@ =~= old(out)@ + frame_enc(f@));
        },
        Frame::Integer(v) => {
            out.push(58);
            write_decimal(out, *v);
            assert(final(out)@ =~= old(out)@ + frame_enc(f@));
        },
        Frame::Bulk(b) => {
            out.push(36);
            let n = bytes_len(b);
            write_decimal(out, n as u64);
            out.extend_from_slice(bytes_as_slice(b));
            out.push(13);
            out.push(10);
            assert(final(out)@ =~= old(out)@ + frame_enc(f@));
        },
        Frame::Null => {
            out.push(36);
            out.push(45);
            out.push(49);
            out.push(13);
            out.push(10);
            assert(final(out)@ =~= old(out)@ + frame_enc(f@));
        },
        Frame::Array(_) => {},
    }
}

/// Append the encoding of one frame. Array elements are written in order;
/// they must not themselves be arrays.
pub fn write_frame(out: &mut Vec<u8>, f: &Frame)
    requires
        encodable(f@),
    ensures
        final(out)@ == old(out)@ + frame_enc(f@),
{
    match f {
        Frame::Array(elems) => {
            let ghost vs: Seq<FrameView> = frame_views(elems@);
            proof {
                lemma_frame_views_index(elems@);
            }
            out.push(42);
            write_decimal(out, elems.len() as u64);
            let ghost header: Seq<u8> = old(out)@ + seq![42u8]
                + dec_digits(elems@.len() as nat) + crlf();
            assert(out@ =~= header);
            let mut i: usize = 0;
            while i < elems.len()
                invariant
                    0 <= i <= elems@.len(),
                    vs == frame_views(elems@),
                    vs.len() == elems@.len(),
                    forall|j: int| 0 <= j < elems@.len()
                        ==> #[trigger] vs[j] == frame_view(elems@[j]),
                    forall|j: int| 0 <= j < vs.len() ==> !(#[trigger] vs[j] is Array),
                    out@ == header + frames_enc(vs.subrange(0, i as int)),
                decreases elems@.len() - i,
            {
                assert(vs.subrange(0, i as int).push(vs[i as int])
                    =~= vs.subrange(0, i + 1));
                proof {
                    lemma_frames_enc_push(vs.subrange(0, i as int), vs[i as int]);
                }
                write_value(out, &elems[i]);
                i = i + 1;
                assert(out@ =~= header + frames_enc(vs.subrange(0, i as int)));
            }
            assert(vs.subrange(0, elems@.len() as int) =~= vs);
            assert(final(out)@ =~= old(out)@ + frame_enc(f@));
        },
        _ => {
            write_value(out, f);
        },
    }
}

// ---------------------------------------------------------------------------
// Decoding.
// ---------------------------------------------------------------------------

/// The first CRLF at or after `from` sits at position `j`.
pub open spec fn line_ends_at(s: Seq<u8>, from: int, j: int) -> bool {
    from <= j && j + 1 < s.len() && s[j] == 13 && s[j + 1] == 10 && forall|k: int|
        from <= k < j ==> !(#[trigger] s[k] == 13 && s[k + 1] == 10)
}

/// A line has at most one end.
pub proof fn lemma_line_end_unique(s: Seq<u8>, from: int, j1: int, j2: int)
    requires
        line_ends_at(s, from, j1),
        line_ends_at(s, from, j2),
    ensures
        j1 == j2,
{
    if j1 < j2 {
        assert(!(s[j1] == 13 && s[j1 + 1] == 10));
    }
    if j2 < j1 {
        assert(!(s[j2] == 13 && s[j2 + 1] == 10));
    }
}

/// The line the scan finds holds no CRLF pair of its own.
pub proof fn lemma_line_no_crlf(s: Seq<u8>, from: int, j: int)
    requires
        0 <= from,
        line_ends_at(s, from, j),
    ensures
        no_crlf(s.subrange(from, j)),
{
    let line = s.subrange(from, j);
    assert forall|k: int|
        0 <= k < line.len() - 1 implies !(#[trigger] line[k] == 13 && line[k + 1]
        == 10) by {
        assert(line[k] == s[from + k] && line[k + 1] == s[from + k + 1]);
        assert(!(s[from + k] == 13 && s[from + k + 1] == 10));
    }
}

/// Peek at the byte under the cursor without consuming it.
pub fn peek_u8(src: &[u8], pos: usize) -> (r: Result<u8, Error>)
    ensures
        match r {
            Ok(b) => pos < src@.len() && b == src@[pos as int],
            Err(e) => e is Incomplete && pos >= src@.len(),
        },
{
    if pos < src.len() {
        Ok(src[pos])
    } else {
        Err(Error::Incomplete)
    }
}

/// Consume and return the byte under the cursor.
pub fn get_u8(src: &[u8], pos: &mut usize) -> (r: Result<u8, Error>)
    ensures
        match r {
            Ok(b) => *old(pos) < src@.len() && b == src@[*old(pos) as int] && *final(pos)
                == *old(pos) + 1,
            Err(e) => e is Incomplete && *old(pos) >= src@.len() && *final(pos) == *old(pos),
        },
{
    if *pos < src.len() {
        let b = src[*pos];
        *pos = *pos + 1;
        Ok(b)
    } else {
        Err(Error::Incomplete)
    }
}

/// Advance the cursor by `n` bytes.
pub fn skip(src: &[u8], pos: &mut usize, n: usize) -> (r: Result<(), Error>)
    requires
        *old(pos) <= src@.len(),
    ensures
        match r {
            Ok(()) => *final(pos) == *old(pos) + n && *final(pos) <= src@.len(),
            Err(e) => e is Incomplete && *old(pos) + n > src@.len() && *final(pos) == *old(
                pos,
            ),
        },
{
    if n <= src.len() - *pos {
        *pos = *pos + n;
        Ok(())
    } else {
        Err(Error::Incomplete)
    }
}

/// Advance the cursor just past the first CRLF.
#[verifier::loop_isolation(false)]
fn seek_line(src: &[u8], pos: &mut usize) -> (r: Result<(), Error>)
    requires
        *old(pos) <= src@.len(),
    ensures
        match r {
            Ok(()) => *old(pos) + 2 <= *final(pos) <= src@.len() && line_ends_at(
                src@,
                *old(pos) as int,
                *final(pos) - 2,
            ),
            Err(e) => e is Incomplete && *final(pos) == *old(pos) && forall|j: int|
                !line_ends_at(src@, *old(pos) as int, j),
        },
{
    if src.len() == 0 {
        return Err(Error::Incomplete);
    }
    let start = *pos;
    let mut i: usize = start;
    while i < src.len() - 1
        invariant
            start <= i,
            i <= src@.len(),
            src@.len() >= 1,
            start == *pos,
            *pos <= src@.len(),
            forall|k: int| start <= k < i ==> !(#[trigger] src@[k] == 13 && src@[k + 1] == 10),
        decreases src@.len() - i,
    {
        if src[i] == 13 && src[i + 1] == 10 {
            *pos = i + 2;
            return Ok(());
        }
        i = i + 1;
    }
    Err(Error::Incomplete)
}

/// Consume one CRLF-terminated line and return a copy of its bytes.
pub fn get_line(src: &[u8], pos: &mut usize) -> (r: Result<Vec<u8>, Error>)
    requires
        *old(pos) <= src@.len(),
    ensures
        match r {
            Ok(line) => *old(pos) + 2 <= *final(pos) <= src@.len() && line_ends_at(
                src@,
                *old(pos) as int,
                *final(pos) - 2,
            ) && line@ == src@.subrange(*old(pos) as int, *final(pos) - 2),
            Err(e) => e is Incomplete && *final(pos) == *old(pos) && forall|j: int|
                !line_ends_at(src@, *old(pos) as int, j),
        },
{
    let start = *pos;
    match seek_line(src, pos) {
        Ok(()) => {
            let sub = vstd::slice::slice_subrange(src, start, *pos - 2);
            Ok(vstd::slice::slice_to_vec(sub))
        },
        Err(e) => Err(e),
    }
}

/// A decimal line is acceptable when it is strict and its value fits.
pub open spec fn acceptable_decimal(s: Seq<u8>) -> bool {
    is_canonical_decimal(s) && dec_val(s) <= u64::MAX
}

/// Relies on `atoi::atoi::<u64>`: a digits-only slice parses to its decimal
/// value, or to nothing when the value overflows a `u64`.
#[verifier::external_body]
fn atoi_u64(text: &[u8]) -> (r: Option<u64>)
    requires
        is_digits(text@),
    ensures
        match r {
            Some(v) => dec_val(text@) <= u64::MAX && v == dec_val(text@),
            None => dec_val(text@) > u64::MAX,
        },
{
    atoi::atoi::<u64>(text)
}

/// Read a strict decimal from a whole slice: digits only, no leading zero
/// beyond a single `0`, value within `u64`.
#[verifier::loop_isolation(false)]
pub fn parse_strict_decimal(s: &[u8]) -> (r: Option<u64>)
    ensures
        match r {
            Some(v) => acceptable_decimal(s@) && v == dec_val(s@) && s@ == dec_digits(
                v as nat,
            ),
            None => !acceptable_decimal(s@),
        },
{
    if s.len() == 0 {
        return None;
    }
    if s[0] == 48 && s.len() != 1 {
        return None;
    }
    let mut k: usize = 0;
    while k < s.len()
        invariant
            0 <= k <= s@.len(),
            forall|i: int| 0 <= i < k ==> 48 <= #[trigger] s@[i] <= 57,
        decreases s@.len() - k,
    {
        let b = s[k];
        if b < 48 || b > 57 {
            assert(!is_digits(s@));
            return None;
        }
        k = k + 1;
    }
    assert(is_digits(s@));
    match atoi_u64(s) {
        Some(v) => {
            proof {
                lemma_canonical_decimal_unique(s@);
            }
            Some(v)
        },
        None => None,
    }
}

/// Consume one line and read it as a strict decimal. Nothing is allocated.
#[verifier::loop_isolation(false)]
fn read_decimal(src: &[u8], pos: &mut usize) -> (r: Result<u64, Error>)
    requires
        *old(pos) <= src@.len(),
    ensures
        *final(pos) <= src@.len(),
        match r {
            Ok(v) => *old(pos) + 2 <= *final(pos) && line_ends_at(
                src@,
                *old(pos) as int,
                *final(pos) - 2,
            ) && src@.subrange(*old(pos) as int, *final(pos) - 2) == dec_digits(v as nat),
            Err(e) => match e {
                Error::Incomplete => *final(pos) == *old(pos) && forall|j: int|
                    !line_ends_at(src@, *old(pos) as int, j),
                Error::Invalid => exists|j: int|
                    line_ends_at(src@, *old(pos) as int, j) && !acceptable_decimal(
                        src@.subrange(*old(pos) as int, j),
                    ),
            },
        },
{
    let start = *pos;
    match seek_line(src, pos) {
        Ok(()) => {},
        Err(e) => {
            return Err(e);
        },
    }
    let ghost j = *pos - 2;
    let line = vstd::slice::slice_subrange(src, start, *pos - 2);
    match parse_strict_decimal(line) {
        Some(v) => {
            assert(src@.subrange(start as int, j) == dec_digits(v as nat));
            Ok(v)
        },
        None => Err(Error::Invalid),
    }
}

impl Frame {
    /// Scan whether the buffer holds one whole frame starting at the cursor,
    /// advancing the cursor past it. Nothing is allocated. The ghost hints
    /// mirror `parse`'s: a whole encoded frame at the cursor is found with
    /// its exact end, and a buffer that stops inside an encoded frame is
    /// incomplete, never malformed.
    #[verifier::loop_isolation(false)]
    #[verifier::rlimit(100)]
    pub fn check(
        src: &[u8],
        pos: &mut usize,
        hint: Ghost<Option<(FrameView, int)>>,
        pre: Ghost<Option<FrameView>>,
    ) -> (r: Result<(), Error>)
        requires
            *old(pos) <= src@.len(),
            match hint@ {
                Some(h) => enc_at(src@, *old(pos) as int, h.1, h.0),
                None => true,
            },
            match pre@ {
                Some(g) => enc_prefix_at(src@, *old(pos) as int, g),
                None => true,
            },
        ensures
            *final(pos) <= src@.len(),
            r is Ok ==> *old(pos) < *final(pos),
            match hint@ {
                Some(h) => r is Ok && *final(pos) == h.1,
                None => true,
            },
            match pre@ {
                Some(g) => r == Err::<(), Error>(Error::Incomplete),
                None => true,
            },
        decreases src@.len() - *old(pos),
    {
        let ghost start = *old(pos) as int;
        let total = src.len();
        proof {
            assert(src@.len() <= u64::MAX) by {
                assert((total as u64) as int == total as int);
            }
            if let Some(h) = hint@ {
                lemma_enc_len(h.0);
                lemma_parse_hint_setup(src@, start, h.1, h.0);
            }
            if let Some(g) = pre@ {
                lemma_enc_len(g);
                lemma_enc_first_bytes(g);
                lemma_prefix_setup(src@, start, g);
                if let Some(h) = hint@ {
                    lemma_head_frame_excludes_prefix(src@, start, h.1, h.0);
                }
            }
        }
        let b = match get_u8(src, pos) {
            Ok(b) => b,
            Err(e) => {
                proof {
                    if let Some(h) = hint@ {
                        assert(false);
                    }
                }
                return Err(e);
            },
        };
        if b == 43 || b == 45 {
            // '+' simple, '-' error: one line.
            proof {
                if let Some(h) = hint@ {
                    if b == 43 {
                        assert(h.0 is Simple);
                        lemma_crlf_here(src@, start + 1, h.0->Simple_0);
                    } else {
                        assert(h.0 is Error);
                        lemma_crlf_here(src@, start + 1, h.0->Error_0);
                    }
                }
                if let Some(g) = pre@ {
                    if b == 43 {
                        assert(g is Simple) by {
                            assert(src@[start] == frame_enc(g)[0]);
                        }
                        assert(frame_enc(g) =~= seq![43u8] + g->Simple_0 + crlf()
                            + Seq::<u8>::empty());
                        lemma_prefix_header_no_line(
                            src@,
                            start,
                            g,
                            43,
                            g->Simple_0,
                            Seq::empty(),
                        );
                    } else {
                        assert(g is Error) by {
                            assert(src@[start] == frame_enc(g)[0]);
                        }
                        assert(frame_enc(g) =~= seq![45u8] + g->Error_0 + crlf()
                            + Seq::<u8>::empty());
                        lemma_prefix_header_no_line(
                            src@,
                            start,
                            g,
                            45,
                            g->Error_0,
                            Seq::empty(),
                        );
                    }
                }
            }
            match seek_line(src, pos) {
                Ok(()) => {
                    proof {
                        if let Some(g) = pre@ {
                            assert(false);
                        }
                        if let Some(h) = hint@ {
                            if b == 43 {
                                lemma_line_is(src@, start + 1, h.0->Simple_0, *pos - 2);
                            } else {
                                lemma_line_is(src@, start + 1, h.0->Error_0, *pos - 2);
                            }
                        }
                    }
                    Ok(())
                },
                Err(e) => {
                    proof {
                        if let Some(h) = hint@ {
                            assert(false);
                        }
                    }
                    Err(e)
                },
            }
        } else if b == 58 {
            // ':' integer: one strict decimal line.
            proof {
                if let Some(g) = pre@ {
                    assert(g is Integer) by {
                        assert(src@[start] == frame_enc(g)[0]);
                    }
                    lemma_dec_digits_canonical(g->Integer_0 as nat);
                    lemma_digits_no_crlf(dec_digits(g->Integer_0 as nat));
                    assert(frame_enc(g) =~= seq![58u8] + dec_digits(g->Integer_0 as nat)
                        + crlf() + Seq::<u8>::empty());
                    lemma_prefix_header_no_line(
                        src@,
                        start,
                        g,
                        58,
                        dec_digits(g->Integer_0 as nat),
                        Seq::empty(),
                    );
                }
            }
            match read_decimal(src, pos) {
                Ok(_) => {
                    proof {
                        if let Some(g) = pre@ {
                            assert(false);
                        }
                        if let Some(h) = hint@ {
                            lemma_line_is(
                                src@,
                                start + 1,
                                dec_digits(h.0->Integer_0 as nat),
                                *pos - 2,
                            );
                        }
                    }
                    Ok(())
                },
                Err(e) => {
                    proof {
                        if let Some(h) = hint@ {
                            lemma_hinted_decimal_line(src@, start + 1, h.0->Integer_0);
                        }
                    }
                    Err(e)
                },
            }
        } else if b == 36 {
            // '$' bulk or null.
            let p = match peek_u8(src, *pos) {
                Ok(p) => p,
                Err(e) => {
                    proof {
                        if let Some(h) = hint@ {
                            assert(false);
                        }
                    }
                    return Err(e);
                },
            };
            if p == 45 {
                // Null: skip "-1\r\n".
                proof {
                    if let Some(h) = hint@ {
                        assert(h.0 is Null);
                    }
                    if let Some(g) = pre@ {
                        assert(g is Null) by {
                            assert(src@[start] == frame_enc(g)[0]);
                            assert(src@[start + 1] == frame_enc(g)[1]);
                        }
                    }
                }
                match skip(src, pos, 4) {
                    Ok(()) => {
                        proof {
                            if let Some(g) = pre@ {
                                assert(false);
                            }
                        }
                        Ok(())
                    },
                    Err(e) => {
                        proof {
                            if let Some(h) = hint@ {
                                assert(false);
                            }
                        }
                        Err(e)
                    },
                }
            } else {
                proof {
                    if let Some(h) = hint@ {
                        assert(h.0 is Bulk);
                    }
                    if let Some(g) = pre@ {
                        assert(g is Bulk) by {
                            assert(src@[start] == frame_enc(g)[0]);
                            assert(src@[start + 1] == frame_enc(g)[1]);
                        }
                        let d = dec_digits(g->Bulk_0.len());
                        lemma_dec_digits_canonical(g->Bulk_0.len());
                        lemma_digits_no_crlf(d);
                        assert(frame_enc(g) =~= seq![36u8] + d + crlf() + (g->Bulk_0
                            + crlf()));
                        assert(frame_enc(g).len() == 5 + d.len() + g->Bulk_0.len());
                        if src@.len() - start < 3 + d.len() {
                            lemma_prefix_header_no_line(
                                src@,
                                start,
                                g,
                                36,
                                d,
                                g->Bulk_0 + crlf(),
                            );
                        } else {
                            lemma_prefix_header_line(
                                src@,
                                start,
                                g,
                                36,
                                d,
                                g->Bulk_0 + crlf(),
                            );
                        }
                    }
                }
                let len = match read_decimal(src, pos) {
                    Ok(v) => v,
                    Err(e) => {
                        proof {
                            if let Some(h) = hint@ {
                                lemma_dec_digits_canonical(h.0->Bulk_0.len());
                                lemma_hinted_bulk_len(src@, start, h.1, h.0);
                                assert(h.0->Bulk_0.len() <= u64::MAX);
                                lemma_hinted_decimal_line(
                                    src@,
                                    start + 1,
                                    (dec_val(dec_digits(h.0->Bulk_0.len())) as u64),
                                );
                            }
                            if let Some(g) = pre@ {
                                let d = dec_digits(g->Bulk_0.len());
                                if src@.len() - start >= 3 + d.len() {
                                    assert(g->Bulk_0.len() <= u64::MAX);
                                    lemma_hinted_decimal_line(
                                        src@,
                                        start + 1,
                                        (dec_val(d) as u64),
                                    );
                                    assert(false);
                                }
                            }
                        }
                        return Err(e);
                    },
                };
                proof {
                    if let Some(h) = hint@ {
                        let pv = h.0->Bulk_0;
                        lemma_hinted_bulk_len(src@, start, h.1, h.0);
                        lemma_line_is(src@, start + 1, dec_digits(pv.len()), *pos - 2);
                        lemma_dec_digits_canonical(len as nat);
                        lemma_dec_digits_canonical(pv.len());
                        assert(len == pv.len());
                    }
                    if let Some(g) = pre@ {
                        let pv = g->Bulk_0;
                        let d = dec_digits(pv.len());
                        if src@.len() - start < 3 + d.len() {
                            assert(false);
                        } else {
                            lemma_line_is(src@, start + 1, d, *pos - 2);
                            lemma_dec_digits_canonical(len as nat);
                            lemma_dec_digits_canonical(pv.len());
                            assert(len == pv.len());
                            assert(*pos == start + 3 + d.len());
                        }
                    }
                }
                if len > usize::MAX as u64 {
                    proof {
                        if let Some(h) = hint@ {
                            assert(false);
                        }
                        if let Some(g) = pre@ {
                            assert(false);
                        }
                    }
                    return Err(Error::Invalid);
                }
                match skip(src, pos, len as usize) {
                    Ok(()) => {},
                    Err(e) => {
                        proof {
                            if let Some(h) = hint@ {
                                assert(false);
                            }
                        }
                        return Err(e);
                    },
                }
                match skip(src, pos, 2) {
                    Ok(()) => {
                        proof {
                            if let Some(g) = pre@ {
                                // A proper prefix cannot hold the payload and
                                // its CRLF.
                                assert(false);
                            }
                        }
                        Ok(())
                    },
                    Err(e) => {
                        proof {
                            if let Some(h) = hint@ {
                                assert(false);
                            }
                        }
                        Err(e)
                    },
                }
            }
        } else if b == 42 {
            // '*' array: a length then that many frames.
            proof {
                if let Some(g) = pre@ {
                    assert(g is Array) by {
                        assert(src@[start] == frame_enc(g)[0]);
                    }
                    let es = g->Array_0;
                    let d = dec_digits(es.len());
                    lemma_dec_digits_canonical(es.len());
                    lemma_digits_no_crlf(d);
                    lemma_frames_enc_min_len(es);
                    assert(frame_enc(g) == seq![42u8] + d + crlf() + frames_enc(es));
                    if src@.len() - start < 3 + d.len() {
                        lemma_prefix_header_no_line(src@, start, g, 42, d, frames_enc(es));
                    } else {
                        lemma_prefix_header_line(src@, start, g, 42, d, frames_enc(es));
                    }
                }
            }
            let len = match read_decimal(src, pos) {
                Ok(v) => v,
                Err(e) => {
                    proof {
                        if let Some(h) = hint@ {
                            lemma_dec_digits_canonical(h.0->Array_0.len());
                            lemma_hinted_array_len(src@, start, h.1, h.0);
                            lemma_frames_enc_min_len(h.0->Array_0);
                            assert(h.0->Array_0.len() <= u64::MAX);
                            lemma_hinted_decimal_line(
                                src@,
                                start + 1,
                                (dec_val(dec_digits(h.0->Array_0.len())) as u64),
                            );
                        }
                        if let Some(g) = pre@ {
                            let es = g->Array_0;
                            let d = dec_digits(es.len());
                            if src@.len() - start >= 3 + d.len() {
                                assert(es.len() <= u64::MAX);
                                lemma_hinted_decimal_line(
                                    src@,
                                    start + 1,
                                    (dec_val(d) as u64),
                                );
                                assert(false);
                            }
                        }
                    }
                    return Err(e);
                },
            };
            proof {
                if let Some(h) = hint@ {
                    let elems = h.0->Array_0;
                    lemma_hinted_array_len(src@, start, h.1, h.0);
                    lemma_line_is(src@, start + 1, dec_digits(elems.len()), *pos - 2);
                    lemma_dec_digits_canonical(len as nat);
                    lemma_dec_digits_canonical(elems.len());
                    assert(len == elems.len());
                }
                if let Some(g) = pre@ {
                    let es = g->Array_0;
                    let d = dec_digits(es.len());
                    if src@.len() - start < 3 + d.len() {
                        assert(false);
                    } else {
                        lemma_line_is(src@, start + 1, d, *pos - 2);
                        lemma_dec_digits_canonical(len as nat);
                        lemma_dec_digits_canonical(es.len());
                        assert(es.len() <= u64::MAX);
                        assert(len == es.len());
                        assert(*pos == start + 3 + d.len());
                    }
                }
            }
            let ghost after_header = *pos as int;
            proof {
                if let Some(h) = hint@ {
                    let elems = h.0->Array_0;
                    assert(src@.subrange(after_header, h.1) == frames_enc(elems));
                    assert(frames_enc(elems.subrange(0, 0)) =~= Seq::<u8>::empty());
                }
                if let Some(g) = pre@ {
                    lemma_prefix_array_body(src@, start, g);
                    let es = g->Array_0;
                    assert(src@.subrange(after_header, src@.len() as int) == frames_enc(
                        es,
                    ).subrange(0, src@.len() - after_header));
                    assert(src@.len() - after_header < frames_enc(es).len());
                    assert(frames_enc(es).len() <= usize::MAX);
                    assert(frames_enc(es.subrange(0, 0)) =~= Seq::<u8>::empty());
                }
            }
            let mut k: u64 = 0;
            while k < len
                invariant
                    after_header <= *pos <= src@.len(),
                    k <= len,
                    match hint@ {
                        Some(h) => *pos == after_header + frames_enc(
                            h.0->Array_0.subrange(0, k as int),
                        ).len(),
                        None => true,
                    },
                    match pre@ {
                        Some(g) => *pos == after_header + frames_enc(
                            g->Array_0.subrange(0, k as int),
                        ).len(),
                        None => true,
                    },
                decreases len - k,
            {
                let ghost mid = *pos as int;
                let ghost child_hint: Option<(FrameView, int)> = match hint@ {
                    Some(h) => {
                        let elems = h.0->Array_0;
                        Some(
                            (
                                elems[k as int],
                                mid + frame_enc(elems[k as int]).len() as int,
                            ),
                        )
                    },
                    None => match pre@ {
                        Some(g) => {
                            let elems = g->Array_0;
                            if mid + frame_enc(elems[k as int]).len() <= src@.len() {
                                Some(
                                    (
                                        elems[k as int],
                                        mid + frame_enc(elems[k as int]).len() as int,
                                    ),
                                )
                            } else {
                                None
                            }
                        },
                        None => None,
                    },
                };
                let ghost child_pre: Option<FrameView> = match pre@ {
                    Some(g) => {
                        let elems = g->Array_0;
                        if mid + frame_enc(elems[k as int]).len() <= src@.len() {
                            None
                        } else {
                            Some(elems[k as int])
                        }
                    },
                    None => None,
                };
                proof {
                    if let Some(h) = hint@ {
                        let elems = h.0->Array_0;
                        lemma_array_child_slot(
                            src@,
                            after_header,
                            h.1,
                            elems,
                            mid,
                            k as int,
                        );
                        assert(wf_frame(elems[k as int]));
                    }
                    if let Some(g) = pre@ {
                        let elems = g->Array_0;
                        lemma_prefix_child_slot(src@, after_header, elems, k as int, mid);
                        assert(wf_frame(elems[k as int]));
                    }
                }
                match Frame::check(src, pos, Ghost(child_hint), Ghost(child_pre)) {
                    Ok(()) => {},
                    Err(e) => {
                        proof {
                            if let Some(h) = hint@ {
                                assert(false);
                            }
                            if let Some(g) = pre@ {
                                let elems = g->Array_0;
                                if mid + frame_enc(elems[k as int]).len() <= src@.len() {
                                    assert(false);
                                }
                            }
                        }
                        return Err(e);
                    },
                }
                k = k + 1;
                proof {
                    if let Some(g) = pre@ {
                        let elems = g->Array_0;
                        if !(mid + frame_enc(elems[k as int - 1]).len() <= src@.len()) {
                            assert(false);
                        }
                    }
                    if let Some(h) = hint@ {
                        let elems = h.0->Array_0;
                        lemma_frames_enc_push(
                            elems.subrange(0, k as int - 1),
                            elems[k as int - 1],
                        );
                        assert(elems.subrange(0, k as int - 1).push(elems[k as int - 1])
                            =~= elems.subrange(0, k as int));
                    }
                    if let Some(g) = pre@ {
                        let elems = g->Array_0;
                        lemma_frames_enc_push(
                            elems.subrange(0, k as int - 1),
                            elems[k as int - 1],
                        );
                        assert(elems.subrange(0, k as int - 1).push(elems[k as int - 1])
                            =~= elems.subrange(0, k as int));
                    }
                }
            }
            proof {
                if let Some(h) = hint@ {
                    let elems = h.0->Array_0;
                    assert(elems.subrange(0, k as int) =~= elems);
                    assert(src@.subrange(after_header, h.1).len() == h.1 - after_header);
                    assert(*pos == h.1);
                }
                if let Some(g) = pre@ {
                    // A proper prefix cannot hold every element's encoding.
                    let es = g->Array_0;
                    assert(es.subrange(0, k as int) =~= es);
                    assert(false);
                }
            }
            Ok(())
        } else {
            proof {
                if let Some(h) = hint@ {
                    assert(false);
                }
                if let Some(g) = pre@ {
                    assert(src@[start] == frame_enc(g)[0]);
                    assert(false);
                }
            }
            Err(Error::Invalid)
        }
    }

    /// The bulk arm of `parse`: the `$` tag is consumed and the next byte is
    /// not a minus. Contracts mirror `parse`, measured from the tag.
    #[verifier::loop_isolation(false)]
    #[verifier::rlimit(100)]
    fn parse_bulk(
        src: &[u8],
        pos: &mut usize,
        Ghost(start): Ghost<int>,
        hint: Ghost<Option<(FrameView, int)>>,
        pre: Ghost<Option<FrameView>>,
    ) -> (r: Result<Frame, Error>)
        requires
            0 <= start,
            start + 1 == *old(pos),
            *old(pos) <= src@.len(),
            src@[start] == 36,
            match hint@ {
                Some(h) => enc_at(src@, start, h.1, h.0) && h.0 is Bulk,
                None => true,
            },
            match pre@ {
                Some(g) => enc_prefix_at(src@, start, g) && g is Bulk,
                None => true,
            },
        ensures
            *final(pos) <= src@.len(),
            r matches Ok(f) ==> start < *final(pos) && src@.subrange(
                start,
                *final(pos) as int,
            ) == frame_enc(f@) && wf_frame(f@),
            match hint@ {
                Some(h) => r matches Ok(f) && *final(pos) == h.1 && f@ == h.0,
                None => true,
            },
            match pre@ {
                Some(g) => r == Err::<Frame, Error>(Error::Incomplete),
                None => true,
            },
    {
        let total = src.len();
        proof {
            assert(src@.len() <= u64::MAX) by {
                assert((total as u64) as int == total as int);
            }
            if let Some(g) = pre@ {
                lemma_enc_len(g);
                lemma_prefix_setup(src@, start, g);
                if let Some(h) = hint@ {
                    lemma_head_frame_excludes_prefix(src@, start, h.1, h.0);
                }
            }
        }
        proof {
            if let Some(g) = pre@ {
                let d = dec_digits(g->Bulk_0.len());
                lemma_dec_digits_canonical(g->Bulk_0.len());
                lemma_digits_no_crlf(d);
                assert(frame_enc(g) =~= seq![36u8] + d + crlf() + (g->Bulk_0
                    + crlf()));
                assert(frame_enc(g).len() == 5 + d.len() + g->Bulk_0.len());
                if src@.len() - start < 3 + d.len() {
                    lemma_prefix_header_no_line(
                        src@,
                        start,
                        g,
                        36,
                        d,
                        g->Bulk_0 + crlf(),
                    );
                } else {
                    lemma_prefix_header_line(
                        src@,
                        start,
                        g,
                        36,
                        d,
                        g->Bulk_0 + crlf(),
                    );
                }
            }
        }
        let len = match read_decimal(src, pos) {
            Ok(v) => v,
            Err(e) => {
                proof {
                    if let Some(h) = hint@ {
                        lemma_dec_digits_canonical(h.0->Bulk_0.len());
                        lemma_hinted_bulk_len(src@, start, h.1, h.0);
                        assert(h.0->Bulk_0.len() <= u64::MAX);
                        lemma_hinted_decimal_line(
                            src@,
                            start + 1,
                            (dec_val(dec_digits(h.0->Bulk_0.len())) as u64),
                        );
                    }
                    if let Some(g) = pre@ {
                        let d = dec_digits(g->Bulk_0.len());
                        if src@.len() - start >= 3 + d.len() {
                            // The whole length line is buffered, so
                            // reading it cannot have failed.
                            assert(g->Bulk_0.len() <= u64::MAX);
                            lemma_hinted_decimal_line(
                                src@,
                                start + 1,
                                (dec_val(d) as u64),
                            );
                            assert(false);
                        }
                    }
                }
                return Err(e);
            },
        };
        proof {
            if let Some(h) = hint@ {
                let pv = h.0->Bulk_0;
                lemma_hinted_bulk_len(src@, start, h.1, h.0);
                lemma_line_is(src@, start + 1, dec_digits(pv.len()), *pos - 2);
                lemma_dec_digits_canonical(len as nat);
                lemma_dec_digits_canonical(pv.len());
                assert(len == pv.len());
            }
            if let Some(g) = pre@ {
                let pv = g->Bulk_0;
                let d = dec_digits(pv.len());
                if src@.len() - start < 3 + d.len() {
                    assert(false);
                } else {
                    lemma_line_is(src@, start + 1, d, *pos - 2);
                    lemma_dec_digits_canonical(len as nat);
                    lemma_dec_digits_canonical(pv.len());
                    assert(len == pv.len());
                    assert(*pos == start + 3 + d.len());
                }
            }
        }
        if len > usize::MAX as u64 {
            proof {
                if let Some(h) = hint@ {
                    assert(false);
                }
                if let Some(g) = pre@ {
                    assert(false);
                }
            }
            return Err(Error::Invalid);
        }
        let n = len as usize;
        if total - *pos < n {
            proof {
                if let Some(h) = hint@ {
                    assert(false);
                }
            }
            return Err(Error::Incomplete);
        }
        let data_start = *pos;
        let sub = vstd::slice::slice_subrange(src, data_start, data_start + n);
        let payload = bytes_copy_from_slice(sub);
        *pos = data_start + n;
        if total - *pos < 2 {
            proof {
                if let Some(h) = hint@ {
                    assert(false);
                }
            }
            return Err(Error::Incomplete);
        }
        proof {
            if let Some(h) = hint@ {
                assert(src@[*pos as int] == 13 && src@[*pos as int + 1] == 10);
            }
            if let Some(g) = pre@ {
                // A proper prefix cannot hold the payload and its CRLF.
                assert(false);
            }
        }
        if src[*pos] == 13 && src[*pos + 1] == 10 {
            *pos = *pos + 2;
            proof {
                lemma_dec_digits_canonical(n as nat);
            }
            assert(src@.subrange(start, *pos as int) =~= seq![36u8] + dec_digits(
                bytes_view(payload).len(),
            ) + crlf() + bytes_view(payload) + crlf());
            proof {
                if let Some(h) = hint@ {
                    assert(bytes_view(payload) =~= h.0->Bulk_0);
                }
            }
            Ok(Frame::Bulk(payload))
        } else {
            Err(Error::Invalid)
        }
    }

    /// The array arm of `parse`: the `*` tag is consumed. Contracts mirror
    /// `parse`, measured from the tag.
    #[verifier::loop_isolation(false)]
    #[verifier::rlimit(100)]
    fn parse_array(
        src: &[u8],
        pos: &mut usize,
        Ghost(start): Ghost<int>,
        hint: Ghost<Option<(FrameView, int)>>,
        pre: Ghost<Option<FrameView>>,
    ) -> (r: Result<Frame, Error>)
        requires
            0 <= start,
            start + 1 == *old(pos),
            *old(pos) <= src@.len(),
            src@[start] == 42,
            match hint@ {
                Some(h) => enc_at(src@, start, h.1, h.0) && h.0 is Array,
                None => true,
            },
            match pre@ {
                Some(g) => enc_prefix_at(src@, start, g) && g is Array,
                None => true,
            },
        ensures
            *final(pos) <= src@.len(),
            r matches Ok(f) ==> start < *final(pos) && src@.subrange(
                start,
                *final(pos) as int,
            ) == frame_enc(f@) && wf_frame(f@),
            match hint@ {
                Some(h) => r matches Ok(f) && *final(pos) == h.1 && f@ == h.0,
                None => true,
            },
            match pre@ {
                Some(g) => r == Err::<Frame, Error>(Error::Incomplete),
                None => true,
            },
        decreases src@.len() - *old(pos),
    {
        let total = src.len();
        proof {
            assert(src@.len() <= u64::MAX) by {
                assert((total as u64) as int == total as int);
            }
            if let Some(g) = pre@ {
                lemma_enc_len(g);
                lemma_prefix_setup(src@, start, g);
                if let Some(h) = hint@ {
                    lemma_head_frame_excludes_prefix(src@, start, h.1, h.0);
                }
            }
        }
        proof {
            if let Some(g) = pre@ {
                let es = g->Array_0;
                let d = dec_digits(es.len());
                lemma_dec_digits_canonical(es.len());
                lemma_digits_no_crlf(d);
                lemma_frames_enc_min_len(es);
                assert(frame_enc(g) == seq![42u8] + d + crlf() + frames_enc(es));
                if src@.len() - start < 3 + d.len() {
                    lemma_prefix_header_no_line(src@, start, g, 42, d, frames_enc(es));
                } else {
                    lemma_prefix_header_line(src@, start, g, 42, d, frames_enc(es));
                }
            }
        }
        let len = match read_decimal(src, pos) {
            Ok(v) => v,
            Err(e) => {
                proof {
                    if let Some(h) = hint@ {
                        lemma_dec_digits_canonical(h.0->Array_0.len());
                        lemma_hinted_array_len(src@, start, h.1, h.0);
                        lemma_frames_enc_min_len(h.0->Array_0);
                        assert(h.0->Array_0.len() <= u64::MAX);
                        lemma_hinted_decimal_line(
                            src@,
                            start + 1,
                            (dec_val(dec_digits(h.0->Array_0.len())) as u64),
                        );
                    }
                    if let Some(g) = pre@ {
                        let es = g->Array_0;
                        let d = dec_digits(es.len());
                        if src@.len() - start >= 3 + d.len() {
                            assert(es.len() <= u64::MAX);
                            lemma_hinted_decimal_line(
                                src@,
                                start + 1,
                                (dec_val(d) as u64),
                            );
                            assert(false);
                        }
                    }
                }
                return Err(e);
            },
        };
        proof {
            if let Some(h) = hint@ {
                let elems = h.0->Array_0;
                lemma_hinted_array_len(src@, start, h.1, h.0);
                lemma_line_is(src@, start + 1, dec_digits(elems.len()), *pos - 2);
                lemma_dec_digits_canonical(len as nat);
                lemma_dec_digits_canonical(elems.len());
                assert(len == elems.len());
            }
            if let Some(g) = pre@ {
                let es = g->Array_0;
                let d = dec_digits(es.len());
                if src@.len() - start < 3 + d.len() {
                    assert(false);
                } else {
                    lemma_line_is(src@, start + 1, d, *pos - 2);
                    lemma_dec_digits_canonical(len as nat);
                    lemma_dec_digits_canonical(es.len());
                    assert(es.len() <= u64::MAX);
                    assert(len == es.len());
                    assert(*pos == start + 3 + d.len());
                }
            }
        }
        let ghost after_header = *pos as int;
        proof {
            if let Some(h) = hint@ {
                let elems = h.0->Array_0;
                let d = dec_digits(elems.len());
                assert(after_header == start + 3 + d.len());
                assert(src@.subrange(after_header, h.1) == frames_enc(elems));
            }
            if let Some(g) = pre@ {
                lemma_prefix_array_body(src@, start, g);
                let es = g->Array_0;
                assert(src@.subrange(after_header, src@.len() as int) == frames_enc(
                    es,
                ).subrange(0, src@.len() - after_header));
                assert(src@.len() - after_header < frames_enc(es).len());
                assert(frames_enc(es).len() <= usize::MAX);
            }
        }
        let mut out: Vec<Frame> = Vec::new();
        let mut k: u64 = 0;
        while k < len
            invariant
                after_header <= *pos <= src@.len(),
                k <= len,
                out@.len() == k,
                src@.subrange(after_header, *pos as int) == frames_enc(
                    frame_views(out@),
                ),
                forall|i: int|
                    0 <= i < frame_views(out@).len() ==> wf_frame(
                        #[trigger] frame_views(out@)[i],
                    ),
                match hint@ {
                    Some(h) => frame_views(out@) == h.0->Array_0.subrange(0, k as int),
                    None => true,
                },
                match pre@ {
                    Some(g) => frame_views(out@) == g->Array_0.subrange(0, k as int),
                    None => true,
                },
            decreases len - k,
        {
            let ghost mid = *pos as int;
            let ghost views_before = frame_views(out@);
            let ghost child_hint: Option<(FrameView, int)> = match hint@ {
                Some(h) => {
                    let elems = h.0->Array_0;
                    Some(
                        (
                            elems[k as int],
                            mid + frame_enc(elems[k as int]).len() as int,
                        ),
                    )
                },
                None => match pre@ {
                    Some(g) => {
                        let elems = g->Array_0;
                        if mid + frame_enc(elems[k as int]).len() <= src@.len() {
                            Some(
                                (
                                    elems[k as int],
                                    mid + frame_enc(elems[k as int]).len() as int,
                                ),
                            )
                        } else {
                            None
                        }
                    },
                    None => None,
                },
            };
            let ghost child_pre: Option<FrameView> = match pre@ {
                Some(g) => {
                    let elems = g->Array_0;
                    if mid + frame_enc(elems[k as int]).len() <= src@.len() {
                        None
                    } else {
                        Some(elems[k as int])
                    }
                },
                None => None,
            };
            proof {
                if let Some(h) = hint@ {
                    let elems = h.0->Array_0;
                    assert(frame_views(out@) == elems.subrange(0, k as int));
                    assert(mid - after_header == frames_enc(
                        elems.subrange(0, k as int),
                    ).len());
                    lemma_array_child_slot(
                        src@,
                        after_header,
                        h.1,
                        elems,
                        mid,
                        k as int,
                    );
                    assert(wf_frame(elems[k as int]));
                }
                if let Some(g) = pre@ {
                    let elems = g->Array_0;
                    assert(frame_views(out@) == elems.subrange(0, k as int));
                    assert(mid - after_header == frames_enc(
                        elems.subrange(0, k as int),
                    ).len());
                    lemma_prefix_child_slot(src@, after_header, elems, k as int, mid);
                    assert(wf_frame(elems[k as int]));
                }
            }
            let f = match Frame::parse(src, pos, Ghost(child_hint), Ghost(child_pre)) {
                Ok(f) => f,
                Err(e) => {
                    proof {
                        if let Some(h) = hint@ {
                            assert(false);
                        }
                        if let Some(g) = pre@ {
                            let elems = g->Array_0;
                            if mid + frame_enc(elems[k as int]).len() <= src@.len() {
                                assert(false);
                            }
                        }
                    }
                    return Err(e);
                },
            };
            proof {
                if let Some(g) = pre@ {
                    let elems = g->Array_0;
                    if !(mid + frame_enc(elems[k as int]).len() <= src@.len()) {
                        assert(false);
                    }
                }
                lemma_frame_views_push(out@, f);
                lemma_frames_enc_push(views_before, f@);
            }
            out.push(f);
            k = k + 1;
            assert(src@.subrange(after_header, *pos as int) =~= src@.subrange(
                after_header,
                mid,
            ) + src@.subrange(mid, *pos as int));
            proof {
                if let Some(h) = hint@ {
                    assert(frame_views(out@) =~= h.0->Array_0.subrange(0, k as int));
                }
                if let Some(g) = pre@ {
                    assert(frame_views(out@) =~= g->Array_0.subrange(0, k as int));
                }
            }
        }
        assert(out@.len() == len);
        proof {
            lemma_frame_views_index(out@);
        }
        assert(src@.subrange(start, *pos as int) =~= seq![42u8] + dec_digits(
            len as nat,
        ) + crlf() + frames_enc(frame_views(out@)));
        proof {
            if let Some(h) = hint@ {
                assert(frame_views(out@) =~= h.0->Array_0);
                assert(src@.subrange(start, *pos as int) == src@.subrange(start, h.1)
                    && *pos <= src@.len() && h.1 <= src@.len());
                assert(*pos == h.1) by {
                    assert(src@.subrange(start, *pos as int).len() == src@.subrange(
                        start,
                        h.1,
                    ).len());
                }
            }
            if let Some(g) = pre@ {
                // A proper prefix cannot hold every element's encoding.
                let es = g->Array_0;
                assert(frame_views(out@) =~= es);
                assert(src@.subrange(after_header, *pos as int).len() == *pos
                    - after_header);
                assert(false);
            }
        }
        Ok(Frame::Array(out))
    }

    /// Build the frame starting at the cursor. On success the consumed bytes
    /// are exactly the canonical encoding of the returned, well-formed frame.
    /// The first ghost hint states completeness: a whole encoded frame at the
    /// cursor is parsed back exactly. The second states progress: a buffer
    /// that stops inside an encoded frame is incomplete, never malformed.
    /// And a complete `$-` line is null or malformed, never incomplete.
    #[verifier::loop_isolation(false)]
    #[verifier::rlimit(100)]
    pub fn parse(
        src: &[u8],
        pos: &mut usize,
        hint: Ghost<Option<(FrameView, int)>>,
        pre: Ghost<Option<FrameView>>,
    ) -> (r: Result<Frame, Error>)
        requires
            *old(pos) <= src@.len(),
            match hint@ {
                Some(h) => enc_at(src@, *old(pos) as int, h.1, h.0),
                None => true,
            },
            match pre@ {
                Some(g) => enc_prefix_at(src@, *old(pos) as int, g),
                None => true,
            },
        ensures
            *final(pos) <= src@.len(),
            r matches Ok(f) ==> *old(pos) < *final(pos) && src@.subrange(
                *old(pos) as int,
                *final(pos) as int,
            ) == frame_enc(f@) && wf_frame(f@),
            match hint@ {
                Some(h) => r matches Ok(f) && *final(pos) == h.1 && f@ == h.0,
                None => true,
            },
            match pre@ {
                Some(g) => r == Err::<Frame, Error>(Error::Incomplete),
                None => true,
            },
            null_line_at(src@, *old(pos) as int) ==> ((r matches Ok(f) && f@ is Null) || r
                == Err::<Frame, Error>(Error::Invalid)),
        decreases src@.len() - *old(pos),
    {
        let ghost start = *old(pos) as int;
        let total = src.len();
        proof {
            assert(src@.len() <= u64::MAX) by {
                assert((total as u64) as int == total as int);
            }
            if let Some(h) = hint@ {
                lemma_enc_len(h.0);
                lemma_parse_hint_setup(src@, start, h.1, h.0);
            }
            if let Some(g) = pre@ {
                lemma_enc_len(g);
                lemma_enc_first_bytes(g);
                lemma_prefix_setup(src@, start, g);
                if let Some(h) = hint@ {
                    lemma_head_frame_excludes_prefix(src@, start, h.1, h.0);
                }
            }
        }
        let b = match get_u8(src, pos) {
            Ok(b) => b,
            Err(e) => {
                proof {
                    if let Some(h) = hint@ {
                        assert(false);
                    }
                }
                return Err(e);
            },
        };
        if b == 43 {
            proof {
                if let Some(h) = hint@ {
                    assert(h.0 is Simple);
                    lemma_crlf_here(src@, start + 1, h.0->Simple_0);
                }
                if let Some(g) = pre@ {
                    assert(g is Simple) by {
                        assert(src@[start] == frame_enc(g)[0]);
                    }
                    assert(frame_enc(g) =~= seq![43u8] + g->Simple_0 + crlf()
                        + Seq::<u8>::empty());
                    lemma_prefix_header_no_line(
                        src@,
                        start,
                        g,
                        43,
                        g->Simple_0,
                        Seq::empty(),
                    );
                }
            }
            match get_line(src, pos) {
                Ok(line) => {
                    proof {
                        if let Some(g) = pre@ {
                            assert(false);
                        }
                    }
                    assert(src@.subrange(start, *pos as int) =~= seq![43u8] + line@
                        + crlf());
                    proof {
                        lemma_line_no_crlf(src@, start + 1, *pos - 2);
                        assert(no_crlf(line@));
                        if let Some(h) = hint@ {
                            lemma_line_is(src@, start + 1, h.0->Simple_0, *pos - 2);
                            assert(line@ =~= h.0->Simple_0);
                        }
                    }
                    Ok(Frame::Simple(line))
                },
                Err(e) => {
                    proof {
                        if let Some(h) = hint@ {
                            assert(false);
                        }
                    }
                    Err(e)
                },
            }
        } else if b == 45 {
            proof {
                if let Some(h) = hint@ {
                    assert(h.0 is Error);
                    lemma_crlf_here(src@, start + 1, h.0->Error_0);
                }
                if let Some(g) = pre@ {
                    assert(g is Error) by {
                        assert(src@[start] == frame_enc(g)[0]);
                    }
                    assert(frame_enc(g) =~= seq![45u8] + g->Error_0 + crlf()
                        + Seq::<u8>::empty());
                    lemma_prefix_header_no_line(src@, start, g, 45, g->Error_0, Seq::empty());
                }
            }
            match get_line(src, pos) {
                Ok(line) => {
                    proof {
                        if let Some(g) = pre@ {
                            assert(false);
                        }
                    }
                    assert(src@.subrange(start, *pos as int) =~= seq![45u8] + line@
                        + crlf());
                    proof {
                        lemma_line_no_crlf(src@, start + 1, *pos - 2);
                        assert(no_crlf(line@));
                        if let Some(h) = hint@ {
                            lemma_line_is(src@, start + 1, h.0->Error_0, *pos - 2);
                            assert(line@ =~= h.0->Error_0);
                        }
                    }
                    Ok(Frame::Error(line))
                },
                Err(e) => {
                    proof {
                        if let Some(h) = hint@ {
                            assert(false);
                        }
                    }
                    Err(e)
                },
            }
        } else if b == 58 {
            proof {
                if let Some(g) = pre@ {
                    assert(g is Integer) by {
                        assert(src@[start] == frame_enc(g)[0]);
                    }
                    lemma_dec_digits_canonical(g->Integer_0 as nat);
                    lemma_digits_no_crlf(dec_digits(g->Integer_0 as nat));
                    assert(frame_enc(g) =~= seq![58u8] + dec_digits(g->Integer_0 as nat)
                        + crlf() + Seq::<u8>::empty());
                    lemma_prefix_header_no_line(
                        src@,
                        start,
                        g,
                        58,
                        dec_digits(g->Integer_0 as nat),
                        Seq::empty(),
                    );
                }
            }
            match read_decimal(src, pos) {
                Ok(v) => {
                    proof {
                        if let Some(g) = pre@ {
                            assert(false);
                        }
                    }
                    assert(src@.subrange(start, *pos as int) =~= seq![58u8] + dec_digits(
                        v as nat,
                    ) + crlf());
                    proof {
                        if let Some(h) = hint@ {
                            let v0 = h.0->Integer_0;
                            lemma_line_is(
                                src@,
                                start + 1,
                                dec_digits(v0 as nat),
                                *pos - 2,
                            );
                            lemma_dec_digits_canonical(v as nat);
                            lemma_dec_digits_canonical(v0 as nat);
                            assert(v == v0);
                        }
                    }
                    Ok(Frame::Integer(v))
                },
                Err(e) => {
                    proof {
                        if let Some(h) = hint@ {
                            lemma_hinted_decimal_line(src@, start + 1, h.0->Integer_0);
                        }
                    }
                    Err(e)
                },
            }
        } else if b == 36 {
            let p = match peek_u8(src, *pos) {
                Ok(p) => p,
                Err(e) => {
                    proof {
                        if let Some(h) = hint@ {
                            assert(false);
                        }
                    }
                    return Err(e);
                },
            };
            if p == 45 {
                proof {
                    if let Some(h) = hint@ {
                        assert(h.0 is Null);
                        assert(no_crlf(seq![45u8, 49u8]));
                        lemma_crlf_here(src@, start + 1, seq![45u8, 49u8]);
                    }
                    if let Some(g) = pre@ {
                        assert(g is Null) by {
                            assert(src@[start] == frame_enc(g)[0]);
                            assert(src@[start + 1] == frame_enc(g)[1]);
                        }
                        // At most four bytes of "$-1\r\n" are buffered, so no
                        // line can be scanned after the tag.
                        assert(src@.len() - start < 5);
                        assert forall|j: int|
                            !(#[trigger] line_ends_at(src@, start + 1, j)) by {
                            if line_ends_at(src@, start + 1, j) {
                                assert(src@[start + 1] == frame_enc(g)[1]);
                                if j == start + 2 {
                                    assert(src@[start + 2] == frame_enc(g)[2]);
                                }
                            }
                        }
                    }
                }
                // Null: the line must be exactly "-1".
                match get_line(src, pos) {
                    Ok(line) => {
                        proof {
                            if let Some(g) = pre@ {
                                assert(false);
                            }
                            if let Some(h) = hint@ {
                                lemma_line_is(src@, start + 1, seq![45u8, 49u8], *pos - 2);
                                assert(line@ =~= seq![45u8, 49u8]);
                            }
                        }
                        if line.len() == 2 && line[0] == 45 && line[1] == 49 {
                            assert(line@ =~= seq![45u8, 49u8]);
                            assert(src@.subrange(start, *pos as int) =~= seq![
                                36u8,
                                45u8,
                                49u8,
                                13u8,
                                10u8,
                            ]);
                            Ok(Frame::Null)
                        } else {
                            proof {
                                if let Some(h) = hint@ {
                                    assert(false);
                                }
                            }
                            Err(Error::Invalid)
                        }
                    },
                    Err(e) => {
                        proof {
                            if let Some(h) = hint@ {
                                assert(false);
                            }
                        }
                        Err(e)
                    },
                }
            } else {
                proof {
                    if let Some(h) = hint@ {
                        assert(h.0 is Bulk);
                    }
                    if let Some(g) = pre@ {
                        assert(g is Bulk) by {
                            assert(src@[start] == frame_enc(g)[0]);
                            assert(src@[start + 1] == frame_enc(g)[1]);
                        }
                    }
                }
                Frame::parse_bulk(src, pos, Ghost(start), hint, pre)
            }
        } else if b == 42 {
            proof {
                if let Some(g) = pre@ {
                    assert(g is Array) by {
                        assert(src@[start] == frame_enc(g)[0]);
                    }
                }
            }
            Frame::parse_array(src, pos, Ghost(start), hint, pre)
        } else {
            proof {
                if let Some(h) = hint@ {
                    assert(false);
                }
                if let Some(g) = pre@ {
                    assert(src@[start] == frame_enc(g)[0]);
                    assert(false);
                }
            }
            Err(Error::Invalid)
        }
    }
}

/// Splitting a known concatenation of bytes in the buffer.
proof fn lemma_cat(s: Seq<u8>, a: int, b: int, x: Seq<u8>, y: Seq<u8>)
    requires
        0 <= a <= b <= s.len(),
        s.subrange(a, b) == x + y,
    ensures
        b - a == x.len() + y.len(),
        s.subrange(a, a + x.len()) == x,
        s.subrange(a + x.len(), b) == y,
{
    assert(s.subrange(a, b).len() == b - a);
    assert((x + y).len() == x.len() + y.len());
    assert forall|i: int| 0 <= i < x.len() implies s.subrange(a, a + x.len())[i] == x[i] by {
        assert(s.subrange(a, a + x.len())[i] == s[a + i]);
        assert(s.subrange(a, b)[i] == s[a + i]);
        assert((x + y)[i] == x[i]);
    }
    assert(s.subrange(a, a + x.len()) =~= x);
    assert forall|i: int| 0 <= i < y.len() implies s.subrange(a + x.len(), b)[i] == y[i] by {
        assert(s.subrange(a + x.len(), b)[i] == s[a + x.len() + i]);
        assert(s.subrange(a, b)[x.len() + i] == s[a + x.len() + i]);
        assert((x + y)[x.len() + i] == y[i]);
    }
    assert(s.subrange(a + x.len(), b) =~= y);
}

/// From a hinted encoding at the cursor, the bytes the decoder will meet:
/// the tag byte pins the variant, and line payloads sit right after the tag
/// with their CRLF.
proof fn lemma_parse_hint_setup(s: Seq<u8>, a: int, b: int, f: FrameView)
    requires
        enc_at(s, a, b, f),
    ensures
        b - a == frame_enc(f).len(),
        forall|j: int| 0 <= j < b - a ==> s[a + j] == #[trigger] frame_enc(f)[j],
        s[a] == frame_enc(f)[0],
        f matches FrameView::Simple(p) ==> s[a] == 43 && s.subrange(a + 1, a + 1 + p.len())
            == p && s[a + 1 + p.len()] == 13 && s[a + 2 + p.len()] == 10 && b == a + 3
            + p.len(),
        f matches FrameView::Error(p) ==> s[a] == 45 && s.subrange(a + 1, a + 1 + p.len())
            == p && s[a + 1 + p.len()] == 13 && s[a + 2 + p.len()] == 10 && b == a + 3
            + p.len(),
        f matches FrameView::Integer(v) ==> s[a] == 58 && {
            let d = dec_digits(v as nat);
            s.subrange(a + 1, a + 1 + d.len()) == d && s[a + 1 + d.len()] == 13 && s[a + 2
                + d.len()] == 10 && b == a + 3 + d.len() && no_crlf(d)
        },
        f is Null ==> s[a] == 36 && s[a + 1] == 45 && s.subrange(a + 1, a + 3) == seq![
            45u8,
            49u8,
        ] && s[a + 3] == 13 && s[a + 4] == 10 && b == a + 5,
        f matches FrameView::Bulk(p) ==> s[a] == 36 && 48 <= s[a + 1] <= 57,
        f matches FrameView::Array(es) ==> s[a] == 42,
{
    assert(s.subrange(a, b).len() == b - a);
    lemma_enc_len(f);
    assert(forall|j: int| 0 <= j < b - a ==> s[a + j] == #[trigger] frame_enc(f)[j]) by {
        assert(forall|j: int|
            0 <= j < b - a ==> s[a + j] == #[trigger] s.subrange(a, b)[j]);
    }
    assert(s[a] == frame_enc(f)[0]);
    match f {
        FrameView::Simple(p) => {
            lemma_cat(s, a, b, seq![43u8] + p, crlf());
            lemma_cat(s, a, a + 1 + p.len(), seq![43u8], p);
            assert(s[a] == s.subrange(a, a + 1)[0]);
            assert(s[a + 1 + p.len()] == s.subrange(a + 1 + p.len(), b)[0]);
            assert(s[a + 2 + p.len()] == s.subrange(a + 1 + p.len(), b)[1]);
        },
        FrameView::Error(p) => {
            lemma_cat(s, a, b, seq![45u8] + p, crlf());
            lemma_cat(s, a, a + 1 + p.len(), seq![45u8], p);
            assert(s[a] == s.subrange(a, a + 1)[0]);
            assert(s[a + 1 + p.len()] == s.subrange(a + 1 + p.len(), b)[0]);
            assert(s[a + 2 + p.len()] == s.subrange(a + 1 + p.len(), b)[1]);
        },
        FrameView::Integer(v) => {
            let d = dec_digits(v as nat);
            lemma_dec_digits_canonical(v as nat);
            lemma_digits_no_crlf(d);
            lemma_cat(s, a, b, seq![58u8] + d, crlf());
            lemma_cat(s, a, a + 1 + d.len(), seq![58u8], d);
            assert(s[a] == s.subrange(a, a + 1)[0]);
            assert(s[a + 1 + d.len()] == s.subrange(a + 1 + d.len(), b)[0]);
            assert(s[a + 2 + d.len()] == s.subrange(a + 1 + d.len(), b)[1]);
        },
        FrameView::Null => {
            assert(b - a == 5);
            assert(s[a + 1] == frame_enc(f)[1]);
            assert(s[a + 2] == frame_enc(f)[2]);
            assert(s[a + 3] == frame_enc(f)[3]);
            assert(s[a + 4] == frame_enc(f)[4]);
            assert(s.subrange(a + 1, a + 3) =~= seq![45u8, 49u8]);
        },
        FrameView::Bulk(p) => {
            let d = dec_digits(p.len());
            lemma_dec_digits_canonical(p.len());
            assert(48 <= d[0] <= 57);
            assert(b - a == 5 + d.len() + p.len());
            assert(s[a + 1] == frame_enc(f)[1]);
            assert(frame_enc(f)[1] == d[0]) by {
                assert(frame_enc(f)[1] == (seq![36u8] + d)[1]);
                assert((seq![36u8] + d)[1] == d[0]);
            }
        },
        FrameView::Array(es) => {},
    }
}

/// For a hinted bulk frame, the length line and the payload sit at their
/// places.
proof fn lemma_hinted_bulk_len(s: Seq<u8>, a: int, b: int, f: FrameView)
    requires
        enc_at(s, a, b, f),
        f is Bulk,
    ensures
        ({
            let p = f->Bulk_0;
            let d = dec_digits(p.len());
            &&& no_crlf(d)
            &&& dec_val(d) == p.len()
            &&& is_canonical_decimal(d)
            &&& s.subrange(a + 1, a + 1 + d.len()) == d
            &&& s[a + 1 + d.len()] == 13
            &&& s[a + 2 + d.len()] == 10
            &&& b == a + 3 + d.len() + p.len() + 2
            &&& s.subrange(a + 3 + d.len(), a + 3 + d.len() + p.len()) == p
            &&& s[a + 3 + d.len() + p.len()] == 13
            &&& s[a + 4 + d.len() + p.len()] == 10
        }),
{
    let p = f->Bulk_0;
    let d = dec_digits(p.len());
    lemma_dec_digits_canonical(p.len());
    lemma_digits_no_crlf(d);
    assert(frame_enc(f).len() == 5 + d.len() + p.len());
    assert(b - a == frame_enc(f).len());
    assert(dec_val(d) == p.len());
    lemma_cat(s, a, b, seq![36u8] + d + crlf() + p, crlf());
    lemma_cat(s, a, a + 3 + d.len() + p.len(), seq![36u8] + d + crlf(), p);
    lemma_cat(s, a, a + 3 + d.len(), seq![36u8] + d, crlf());
    lemma_cat(s, a, a + 1 + d.len(), seq![36u8], d);
    assert(s[a + 1 + d.len()] == s.subrange(a + 1 + d.len(), a + 3 + d.len())[0]);
    assert(s[a + 2 + d.len()] == s.subrange(a + 1 + d.len(), a + 3 + d.len())[1]);
    assert(s[a + 3 + d.len() + p.len()] == s.subrange(a + 3 + d.len() + p.len(), b)[0]);
    assert(s[a + 4 + d.len() + p.len()] == s.subrange(a + 3 + d.len() + p.len(), b)[1]);
}

/// For a hinted array frame, the length line sits after the tag.
proof fn lemma_hinted_array_len(s: Seq<u8>, a: int, b: int, f: FrameView)
    requires
        enc_at(s, a, b, f),
        f is Array,
    ensures
        ({
            let es = f->Array_0;
            let d = dec_digits(es.len());
            &&& no_crlf(d)
            &&& dec_val(d) == es.len()
            &&& is_canonical_decimal(d)
            &&& b == a + 3 + d.len() + frames_enc(es).len()
            &&& s.subrange(a + 1, a + 1 + d.len()) == d
            &&& s[a + 1 + d.len()] == 13
            &&& s[a + 2 + d.len()] == 10
            &&& s.subrange(a + 3 + d.len(), b) == frames_enc(es)
        }),
{
    let es = f->Array_0;
    let d = dec_digits(es.len());
    lemma_dec_digits_canonical(es.len());
    lemma_digits_no_crlf(d);
    assert(frame_enc(f).len() == 3 + d.len() + frames_enc(es).len());
    assert(b - a == frame_enc(f).len());
    assert(dec_val(d) == es.len());
    lemma_cat(s, a, b, seq![42u8] + d + crlf(), frames_enc(es));
    lemma_cat(s, a, a + 3 + d.len(), seq![42u8] + d, crlf());
    lemma_cat(s, a, a + 1 + d.len(), seq![42u8], d);
    assert(s[a + 1 + d.len()] == s.subrange(a + 1 + d.len(), a + 3 + d.len())[0]);
    assert(s[a + 2 + d.len()] == s.subrange(a + 1 + d.len(), a + 3 + d.len())[1]);
}

/// Encoded sequences are at least as long as their element count.
proof fn lemma_frames_enc_min_len(es: Seq<FrameView>)
    ensures
        frames_enc(es).len() >= es.len(),
    decreases es.len(),
{
    if es.len() > 0 {
        lemma_frames_enc_min_len(es.drop_last());
        lemma_enc_len(es.last());
    }
}

/// Inside an encoded sequence, the next element's encoding sits right after
/// the encodings of the elements already read.
proof fn lemma_array_child_slot(s: Seq<u8>, hdr: int, b: int, es: Seq<FrameView>, mid: int, k: int)
    requires
        0 <= hdr <= b <= s.len(),
        s.subrange(hdr, b) == frames_enc(es),
        0 <= k < es.len(),
        mid == hdr + frames_enc(es.subrange(0, k)).len(),
    ensures
        hdr <= mid,
        mid + frame_enc(es[k]).len() <= b,
        s.subrange(mid, mid + frame_enc(es[k]).len()) == frame_enc(es[k]),
{
    lemma_frames_enc_split(es, k);
    let front = frames_enc(es.subrange(0, k));
    let middle = frame_enc(es[k]);
    let back = frames_enc(es.subrange(k + 1, es.len() as int));
    lemma_cat(s, hdr, b, front + middle, back);
    lemma_cat(s, hdr, hdr + front.len() + middle.len(), front, middle);
}

/// The first byte of every canonical encoding names its variant; the second
/// separates a bulk from a null.
proof fn lemma_enc_first_bytes(f: FrameView)
    ensures
        f is Simple ==> frame_enc(f)[0] == 43,
        f is Error ==> frame_enc(f)[0] == 45,
        f is Integer ==> frame_enc(f)[0] == 58,
        f is Bulk ==> frame_enc(f)[0] == 36 && 48 <= frame_enc(f)[1] <= 57,
        f is Null ==> frame_enc(f)[0] == 36 && frame_enc(f)[1] == 45,
        f is Array ==> frame_enc(f)[0] == 42,
{
    lemma_enc_len(f);
    match f {
        FrameView::Simple(p) => {
            assert(frame_enc(f)[0] == (seq![43u8] + p)[0]);
        },
        FrameView::Error(p) => {
            assert(frame_enc(f)[0] == (seq![45u8] + p)[0]);
        },
        FrameView::Integer(v) => {
            assert(frame_enc(f)[0] == (seq![58u8] + dec_digits(v as nat))[0]);
        },
        FrameView::Null => {},
        FrameView::Bulk(p) => {
            let d = dec_digits(p.len());
            lemma_dec_digits_canonical(p.len());
            assert(frame_enc(f)[0] == (((seq![36u8] + d) + crlf()) + p)[0]);
            assert((((seq![36u8] + d) + crlf()) + p)[0] == ((seq![36u8] + d) + crlf())[0]);
            assert(((seq![36u8] + d) + crlf())[0] == (seq![36u8] + d)[0]);
            assert(frame_enc(f)[1] == (((seq![36u8] + d) + crlf()) + p)[1]);
            assert((((seq![36u8] + d) + crlf()) + p)[1] == ((seq![36u8] + d) + crlf())[1]);
            assert(((seq![36u8] + d) + crlf())[1] == (seq![36u8] + d)[1]);
            assert((seq![36u8] + d)[1] == d[0]);
        },
        FrameView::Array(es) => {
            let d = dec_digits(es.len());
            assert(frame_enc(f)[0] == ((seq![42u8] + d) + crlf())[0]);
            assert(((seq![42u8] + d) + crlf())[0] == (seq![42u8] + d)[0]);
        },
    }
}

/// A prefix of an encoding agrees with the encoding bytewise.
proof fn lemma_prefix_setup(s: Seq<u8>, a: int, f: FrameView)
    requires
        enc_prefix_at(s, a, f),
    ensures
        forall|q: int| 0 <= q < s.len() - a ==> s[a + q] == #[trigger] frame_enc(f)[q],
{
    assert forall|q: int|
        0 <= q < s.len() - a implies s[a + q] == #[trigger] frame_enc(f)[q] by {
        assert(s.subrange(a, s.len() as int)[q] == s[a + q]);
        assert(frame_enc(f).subrange(0, s.len() - a)[q] == frame_enc(f)[q]);
    }
}

/// A buffer that stops inside a CRLF-free stretch, or right after its
/// carriage return, holds no line.
proof fn lemma_no_line_in_prefix(s: Seq<u8>, from: int, body: Seq<u8>)
    requires
        no_crlf(body),
        0 <= from <= s.len(),
        s.len() - from <= body.len() + 1,
        forall|q: int|
            0 <= q < s.len() - from && q < body.len() ==> s[from + q] == #[trigger] body[q],
        s.len() - from == body.len() + 1 ==> s[from + body.len()] == 13,
    ensures
        forall|j: int| !line_ends_at(s, from, j),
{
    assert forall|j: int| !line_ends_at(s, from, j) by {
        if line_ends_at(s, from, j) {
            let q = j - from;
            if q + 1 < body.len() {
                assert(s[from + q] == body[q] && s[from + q + 1] == body[q + 1]);
                assert(!(body[q] == 13 && body[q + 1] == 10));
            } else {
                assert(q + 1 == body.len());
                assert(s.len() - from == body.len() + 1);
                assert(s[from + body.len()] == 13);
            }
        }
    }
}

/// When the buffer ends inside a frame's header line — the tag, a CRLF-free
/// body, then CRLF — no line can be scanned after the tag.
proof fn lemma_prefix_header_no_line(
    s: Seq<u8>,
    a: int,
    f: FrameView,
    t: u8,
    body: Seq<u8>,
    tail: Seq<u8>,
)
    requires
        enc_prefix_at(s, a, f),
        frame_enc(f) == seq![t] + body + crlf() + tail,
        no_crlf(body),
        1 <= s.len() - a < 3 + body.len(),
    ensures
        forall|j: int| !(#[trigger] line_ends_at(s, a + 1, j)),
{
    lemma_prefix_setup(s, a, f);
    let x = (seq![t] + body) + crlf();
    assert forall|q: int|
        0 <= q < s.len() - (a + 1) && q < body.len() implies s[a + 1 + q] == #[trigger]
        body[q] by {
        assert(s[a + 1 + q] == frame_enc(f)[1 + q]);
        assert(frame_enc(f)[1 + q] == x[1 + q]);
        assert(x[1 + q] == (seq![t] + body)[1 + q]);
        assert((seq![t] + body)[1 + q] == body[q]);
    }
    if s.len() - (a + 1) == body.len() + 1 {
        assert(s[a + 1 + body.len() as int] == frame_enc(f)[1 + body.len() as int]);
        assert(frame_enc(f)[1 + body.len() as int] == x[1 + body.len() as int]);
        assert(x[1 + body.len() as int] == crlf()[0]);
    }
    lemma_no_line_in_prefix(s, a + 1, body);
}

/// When the buffer covers a frame's whole header line, that line sits right
/// after the tag, ended by the first CRLF.
proof fn lemma_prefix_header_line(
    s: Seq<u8>,
    a: int,
    f: FrameView,
    t: u8,
    body: Seq<u8>,
    tail: Seq<u8>,
)
    requires
        enc_prefix_at(s, a, f),
        frame_enc(f) == seq![t] + body + crlf() + tail,
        no_crlf(body),
        s.len() - a >= 3 + body.len(),
    ensures
        s.subrange(a + 1, a + 1 + body.len()) == body,
        s[a + 1 + body.len()] == 13,
        s[a + 2 + body.len()] == 10,
        line_ends_at(s, a + 1, a + 1 + body.len()),
{
    lemma_prefix_setup(s, a, f);
    let x = (seq![t] + body) + crlf();
    assert forall|q: int| 0 <= q < body.len() + 2 implies s[a + 1 + q] == #[trigger] x[1
        + q] by {
        assert(s[a + 1 + q] == frame_enc(f)[1 + q]);
        assert(frame_enc(f)[1 + q] == x[1 + q]);
    }
    assert forall|q: int| 0 <= q < body.len() implies s[a + 1 + q] == #[trigger]
        body[q] by {
        assert(x[1 + q] == (seq![t] + body)[1 + q]);
        assert((seq![t] + body)[1 + q] == body[q]);
    }
    assert(s.subrange(a + 1, a + 1 + body.len()) =~= body);
    assert(s[a + 1 + body.len() as int] == x[1 + body.len() as int]) by {
        let q = body.len() as int;
        assert(s[a + 1 + q] == x[1 + q]);
    }
    assert(s[a + 2 + body.len() as int] == x[2 + body.len() as int]) by {
        let q = body.len() as int + 1;
        assert(s[a + 1 + q] == x[1 + q]);
    }
    assert(x[1 + body.len() as int] == crlf()[0]);
    assert(x[2 + body.len() as int] == crlf()[1]);
    lemma_crlf_here(s, a + 1, body);
}

/// Within an encoded sequence known only as a prefix, the element after the
/// ones already read is either wholly present or itself cut short.
proof fn lemma_prefix_child_slot(s: Seq<u8>, hdr: int, es: Seq<FrameView>, k: int, mid: int)
    requires
        0 <= hdr <= mid <= s.len(),
        s.subrange(hdr, s.len() as int) == frames_enc(es).subrange(0, s.len() - hdr),
        s.len() - hdr <= frames_enc(es).len(),
        0 <= k < es.len(),
        mid == hdr + frames_enc(es.subrange(0, k)).len(),
    ensures
        frame_enc(es[k]).len() <= frames_enc(es).len(),
        mid + frame_enc(es[k]).len() <= s.len() ==> s.subrange(
            mid,
            mid + frame_enc(es[k]).len(),
        ) == frame_enc(es[k]),
        mid + frame_enc(es[k]).len() > s.len() ==> s.subrange(mid, s.len() as int)
            == frame_enc(es[k]).subrange(0, s.len() - mid),
{
    lemma_frames_enc_split(es, k);
    let front = frames_enc(es.subrange(0, k));
    let middle = frame_enc(es[k]);
    let back = frames_enc(es.subrange(k + 1, es.len() as int));
    assert(frames_enc(es).len() == front.len() + middle.len() + back.len());
    assert forall|q: int|
        0 <= q < s.len() - hdr implies s[hdr + q] == #[trigger] frames_enc(es)[q] by {
        assert(s.subrange(hdr, s.len() as int)[q] == s[hdr + q]);
        assert(frames_enc(es).subrange(0, s.len() - hdr)[q] == frames_enc(es)[q]);
    }
    assert forall|i: int|
        0 <= i < middle.len() && mid + i < s.len() implies s[mid + i] == #[trigger]
        middle[i] by {
        assert(s[hdr + (front.len() + i)] == frames_enc(es)[front.len() + i]);
        assert(frames_enc(es)[front.len() + i] == ((front + middle) + back)[front.len()
            + i]);
        assert(((front + middle) + back)[front.len() + i] == (front + middle)[front.len()
            + i]);
        assert((front + middle)[front.len() + i] == middle[i]);
    }
    if mid + middle.len() <= s.len() {
        assert(s.subrange(mid, mid + middle.len()) =~= middle);
    } else {
        assert(s.subrange(mid, s.len() as int) =~= middle.subrange(0, s.len() - mid));
    }
}

/// A prefix of an array frame that covers its header continues with a prefix
/// of the elements' encodings.
proof fn lemma_prefix_array_body(s: Seq<u8>, a: int, f: FrameView)
    requires
        enc_prefix_at(s, a, f),
        f is Array,
        s.len() - a >= 3 + dec_digits(f->Array_0.len()).len(),
    ensures
        ({
            let es = f->Array_0;
            let hdr = a + 3 + dec_digits(es.len()).len();
            &&& s.subrange(hdr, s.len() as int) == frames_enc(es).subrange(0, s.len() - hdr)
            &&& s.len() - hdr < frames_enc(es).len()
            &&& frames_enc(es).len() <= usize::MAX
        }),
{
    lemma_prefix_setup(s, a, f);
    let es = f->Array_0;
    let d = dec_digits(es.len());
    let hdr = a + 3 + d.len();
    let x = (seq![42u8] + d) + crlf();
    assert(frame_enc(f).len() == 3 + d.len() + frames_enc(es).len());
    assert forall|q: int|
        0 <= q < s.len() - hdr implies s[hdr + q] == #[trigger] frames_enc(es)[q] by {
        assert(s[a + (3 + d.len() + q)] == frame_enc(f)[3 + d.len() + q]);
        assert(frame_enc(f)[3 + d.len() + q] == (x + frames_enc(es))[3 + d.len() + q]);
        assert((x + frames_enc(es))[3 + d.len() + q] == frames_enc(es)[q]);
    }
    assert(s.subrange(hdr, s.len() as int) =~= frames_enc(es).subrange(0, s.len() - hdr));
}

/// A strict decimal line hinted at the cursor is found by the line scan:
/// its CRLF is the first one, no other position ends the line, and the line
/// itself is an acceptable decimal.
proof fn lemma_hinted_decimal_line(s: Seq<u8>, from: int, v0: u64)
    requires
        0 <= from,
        from + dec_digits(v0 as nat).len() + 2 <= s.len(),
        s.subrange(from, from + dec_digits(v0 as nat).len()) == dec_digits(v0 as nat),
        s[from + dec_digits(v0 as nat).len()] == 13,
        s[from + dec_digits(v0 as nat).len() + 1] == 10,
    ensures
        line_ends_at(s, from, from + dec_digits(v0 as nat).len()),
        forall|j: int|
            #[trigger] line_ends_at(s, from, j) ==> j == from + dec_digits(
                v0 as nat,
            ).len(),
        acceptable_decimal(s.subrange(from, from + dec_digits(v0 as nat).len())),
{
    let d = dec_digits(v0 as nat);
    lemma_dec_digits_canonical(v0 as nat);
    lemma_digits_no_crlf(d);
    lemma_crlf_here(s, from, d);
    assert forall|j: int| #[trigger] line_ends_at(s, from, j) implies j == from
        + d.len() by {
        lemma_line_end_unique(s, from, j, from + d.len());
    }
}

/// The wire is unambiguous: two well-formed frames whose canonical encodings
/// sit at the same position denote the same frame and end at the same place.
/// Together with the decoder's contract, decoding an encoded frame yields
/// exactly that frame back.
pub proof fn lemma_enc_unambiguous(s: Seq<u8>, a: int, b1: int, b2: int, f: FrameView, g: FrameView)
    requires
        enc_at(s, a, b1, f),
        enc_at(s, a, b2, g),
    ensures
        f == g,
        b1 == b2,
    decreases f,
{
    lemma_parse_hint_setup(s, a, b1, f);
    lemma_parse_hint_setup(s, a, b2, g);
    match f {
        FrameView::Simple(p) => {
            assert(g is Simple);
            let q = g->Simple_0;
            lemma_crlf_here(s, a + 1, p);
            lemma_line_is(s, a + 1, q, a + 1 + p.len());
            assert(p =~= q);
        },
        FrameView::Error(p) => {
            assert(g is Error);
            let q = g->Error_0;
            lemma_crlf_here(s, a + 1, p);
            lemma_line_is(s, a + 1, q, a + 1 + p.len());
            assert(p =~= q);
        },
        FrameView::Integer(v) => {
            assert(g is Integer);
            let w = g->Integer_0;
            lemma_dec_digits_canonical(v as nat);
            lemma_dec_digits_canonical(w as nat);
            lemma_digits_no_crlf(dec_digits(v as nat));
            lemma_crlf_here(s, a + 1, dec_digits(v as nat));
            lemma_line_is(s, a + 1, dec_digits(w as nat), a + 1 + dec_digits(v as nat).len());
            assert(dec_digits(v as nat) =~= dec_digits(w as nat));
            assert(v == w);
        },
        FrameView::Null => {
            assert(g is Null);
        },
        FrameView::Bulk(p) => {
            assert(g is Bulk) by {
                if g is Null {
                    assert(s[a + 1] == 45);
                }
            }
            let q = g->Bulk_0;
            lemma_hinted_bulk_len(s, a, b1, f);
            lemma_hinted_bulk_len(s, a, b2, g);
            let dp = dec_digits(p.len());
            let dq = dec_digits(q.len());
            lemma_dec_digits_canonical(p.len());
            lemma_dec_digits_canonical(q.len());
            lemma_digits_no_crlf(dp);
            lemma_crlf_here(s, a + 1, dp);
            lemma_line_is(s, a + 1, dq, a + 1 + dp.len());
            assert(dp =~= dq);
            assert(dec_val(dp) == dec_val(dq));
            assert(p.len() == q.len());
            assert(p =~= q);
        },
        FrameView::Array(es) => {
            assert(g is Array);
            let gs = g->Array_0;
            lemma_hinted_array_len(s, a, b1, f);
            lemma_hinted_array_len(s, a, b2, g);
            let de = dec_digits(es.len());
            let dg = dec_digits(gs.len());
            lemma_dec_digits_canonical(es.len());
            lemma_dec_digits_canonical(gs.len());
            lemma_digits_no_crlf(de);
            lemma_crlf_here(s, a + 1, de);
            lemma_line_is(s, a + 1, dg, a + 1 + de.len());
            assert(de =~= dg);
            assert(dec_val(de) == dec_val(dg));
            assert(es.len() == gs.len());
            lemma_frames_unambiguous(s, a + 3 + de.len(), b1, b2, es, gs);
            assert(f == g);
        },
    }
}

/// Two encoded sequences of the same element count starting at the same
/// position are the same sequence.
proof fn lemma_frames_unambiguous(
    s: Seq<u8>,
    hdr: int,
    b1: int,
    b2: int,
    es: Seq<FrameView>,
    gs: Seq<FrameView>,
)
    requires
        0 <= hdr <= b1 <= s.len(),
        0 <= hdr <= b2 <= s.len(),
        s.subrange(hdr, b1) == frames_enc(es),
        s.subrange(hdr, b2) == frames_enc(gs),
        es.len() == gs.len(),
        forall|i: int| 0 <= i < es.len() ==> wf_frame(#[trigger] es[i]),
        forall|i: int| 0 <= i < gs.len() ==> wf_frame(#[trigger] gs[i]),
    ensures
        es == gs,
        b1 == b2,
    decreases es,
{
    assert(s.subrange(hdr, b1).len() == b1 - hdr);
    assert(s.subrange(hdr, b2).len() == b2 - hdr);
    if es.len() == 0 {
        assert(es =~= gs);
    } else {
        lemma_frames_enc_split(es, 0);
        lemma_frames_enc_split(gs, 0);
        assert(es.subrange(0, 0) =~= Seq::<FrameView>::empty());
        assert(gs.subrange(0, 0) =~= Seq::<FrameView>::empty());
        assert(frames_enc(es) =~= frame_enc(es[0]) + frames_enc(
            es.subrange(1, es.len() as int),
        ));
        assert(frames_enc(gs) =~= frame_enc(gs[0]) + frames_enc(
            gs.subrange(1, gs.len() as int),
        ));
        lemma_cat(s, hdr, b1, frame_enc(es[0]), frames_enc(es.subrange(1, es.len() as int)));
        lemma_cat(s, hdr, b2, frame_enc(gs[0]), frames_enc(gs.subrange(1, gs.len() as int)));
        lemma_enc_unambiguous(
            s,
            hdr,
            hdr + frame_enc(es[0]).len(),
            hdr + frame_enc(gs[0]).len(),
            es[0],
            gs[0],
        );
        lemma_frames_unambiguous(
            s,
            hdr + frame_enc(es[0]).len(),
            b1,
            b2,
            es.subrange(1, es.len() as int),
            gs.subrange(1, gs.len() as int),
        );
        assert(es =~= gs) by {
            assert(forall|i: int|
                1 <= i < es.len() ==> #[trigger] es[i] == es.subrange(1, es.len() as int)[i
                    - 1]);
            assert(forall|i: int|
                1 <= i < gs.len() ==> #[trigger] gs[i] == gs.subrange(1, gs.len() as int)[i
                    - 1]);
        }
    }
}

/// A buffer whose head is a whole well-formed frame is not a proper prefix
/// of any well-formed frame's encoding: the head frame already ends inside
/// it, and encodings are unambiguous.
pub proof fn lemma_head_frame_excludes_prefix(s: Seq<u8>, a: int, b: int, f: FrameView)
    requires
        enc_at(s, a, b, f),
    ensures
        forall|g: FrameView| !(#[trigger] enc_prefix_at(s, a, g)),
{
    assert forall|g: FrameView| !(#[trigger] enc_prefix_at(s, a, g)) by {
        if enc_prefix_at(s, a, g) {
            let s2 = frame_enc(g);
            assert(s2.subrange(0, s2.len() as int) =~= s2);
            assert(enc_at(s2, 0, s2.len() as int, g));
            assert forall|i: int| 0 <= i < b - a implies s2[i] == #[trigger] frame_enc(
                f,
            )[i] by {
                assert(s.subrange(a, s.len() as int)[i] == s[a + i]);
                assert(frame_enc(g).subrange(0, s.len() - a)[i] == s2[i]);
                assert(s.subrange(a, b)[i] == s[a + i]);
            }
            assert(s2.subrange(0, b - a) =~= frame_enc(f));
            assert(enc_at(s2, 0, b - a, f));
            lemma_enc_unambiguous(s2, 0, b - a, s2.len() as int, f, g);
        }
    }
}

/// What a scan of the read buffer found.
pub enum Extracted {
    /// One whole frame, and how many buffered bytes it took.
    Complete(Frame, usize),
    /// The buffer holds only part of a frame; read more and retry.
    Incomplete,
    /// The buffered bytes are not a frame; fatal to the connection.
    Malformed,
}

/// Scan the read buffer for one frame: a cheap `check` pass first, then a
/// `parse` pass that builds the value. The consumed prefix of the buffer is
/// exactly the returned, well-formed frame's encoding; whenever the buffer
/// starts with the whole encoding of some well-formed frame, a frame is
/// found; and whenever the buffer is a proper prefix of such an encoding,
/// the answer is to read more — never to close the connection.
pub fn extract_frame(buf: &[u8]) -> (r: Extracted)
    ensures
        r matches Extracted::Complete(f, n) ==> 0 < n && enc_at(buf@, 0, n as int, f@),
        (exists|f: FrameView, n: int| enc_at(buf@, 0, n, f)) ==> r is Complete,
        (exists|g: FrameView| enc_prefix_at(buf@, 0, g)) ==> r is Incomplete,
{
    let ghost hint: Option<(FrameView, int)> = if exists|f: FrameView, n: int|
        enc_at(buf@, 0, n, f) {
        let (f, n) = choose|f: FrameView, n: int| enc_at(buf@, 0, n, f);
        Some((f, n))
    } else {
        None
    };
    let ghost pre: Option<FrameView> = if hint is Some {
        None
    } else if exists|g: FrameView| enc_prefix_at(buf@, 0, g) {
        Some(choose|g: FrameView| enc_prefix_at(buf@, 0, g))
    } else {
        None
    };
    proof {
        // A whole frame at the head rules every proper prefix out.
        if let Some(h) = hint {
            lemma_head_frame_excludes_prefix(buf@, 0, h.1, h.0);
        }
    }
    let mut pos: usize = 0;
    match Frame::check(buf, &mut pos, Ghost(hint), Ghost(pre)) {
        Ok(()) => {
            let mut at: usize = 0;
            match Frame::parse(buf, &mut at, Ghost(hint), Ghost(pre)) {
                Ok(f) => Extracted::Complete(f, at),
                Err(_) => Extracted::Malformed,
            }
        },
        Err(Error::Incomplete) => Extracted::Incomplete,
        Err(Error::Invalid) => Extracted::Malformed,
    }
}

} // verus!
