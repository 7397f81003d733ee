//! A frame of the Redis serialization protocol (RESP), its byte encoding,
//! and a decoder that reads a frame from the front of a byte buffer.

use vstd::prelude::*;
use vstd::utf8::*;
use crate::text::{string_from_utf8, str_eq, bytes_eq};
use vstd::slice::{slice_subrange, slice_to_vec};
use crate::decimal::{
    all_digits, is_digit, decimal, parse_u64_spec, lemma_decimal_shape,
    lemma_canonical_decimal_unique, push_decimal, parse_u64,
};

verus! {

broadcast use {vstd::utf8::encode_utf8_decode_utf8, vstd::utf8::encode_utf8_valid_utf8};

/// A frame in the Redis protocol.
#[derive(Debug, PartialEq, Eq)]
pub enum Frame {
    Simple(String),
    Error(String),
    Integer(u64),
    Bulk(Vec<u8>),
    Null,
    Array(Vec<Frame>),
}

/// The mathematical value of a frame.
pub enum FrameView {
    Simple(Seq<char>),
    Error(Seq<char>),
    Integer(u64),
    Bulk(Seq<u8>),
    Null,
    Array(Seq<FrameView>),
}

pub open spec fn frame_view(f: Frame) -> FrameView
    decreases f,
{
    match f {
        Frame::Simple(s) => FrameView::Simple(s@),
        Frame::Error(s) => FrameView::Error(s@),
        Frame::Integer(n) => FrameView::Integer(n),
        Frame::Bulk(b) => FrameView::Bulk(b@),
        Frame::Null => FrameView::Null,
        Frame::Array(items) => FrameView::Array(frames_view(items@)),
    }
}

/// The values of a sequence of frames, one for one.
pub open spec fn frames_view(s: Seq<Frame>) -> Seq<FrameView>
    decreases s,
{
    if s.len() == 0 {
        Seq::empty()
    } else {
        frames_view(s.drop_last()).push(frame_view(s.last()))
    }
}

impl View for Frame {
    type V = FrameView;

    open spec fn view(&self) -> FrameView {
        frame_view(*self)
    }
}

pub proof fn lemma_frames_view(s: Seq<Frame>)
    ensures
        frames_view(s).len() == s.len(),
        forall|i: int| 0 <= i < s.len() ==> #[trigger] frames_view(s)[i] == s[i]@,
    decreases s.len(),
{
    if s.len() > 0 {
        lemma_frames_view(s.drop_last());
        assert forall|i: int| 0 <= i < s.len() implies #[trigger] frames_view(s)[i] == s[i]@ by {
            if i < s.len() - 1 {
                assert(s.drop_last()[i] == s[i]);
            }
        }
    }
}


/// The line terminator of the protocol, `\r\n`.
pub open spec fn crlf() -> Seq<u8> {
    seq![13u8, 10u8]
}

/// `b` holds no `\r\n`, so it can stand on a line of its own.
pub open spec fn crlf_free(b: Seq<u8>) -> bool {
    forall|j: int| 0 <= j < b.len() - 1 ==> !(#[trigger] b[j] == 13 && b[j + 1] == 10)
}

/// The bytes that encode `f` on the wire.
pub open spec fn encode(f: FrameView) -> Seq<u8>
    decreases f,
{
    match f {
        FrameView::Simple(s) => seq![43u8] + encode_utf8(s) + crlf(),
        FrameView::Error(s) => seq![45u8] + encode_utf8(s) + crlf(),
        FrameView::Integer(n) => seq![58u8] + decimal(n as nat) + crlf(),
        FrameView::Bulk(b) => seq![36u8] + decimal(b.len()) + crlf() + b + crlf(),
        FrameView::Null => seq![36u8, 45u8, 49u8, 13u8, 10u8],
        FrameView::Array(items) => seq![42u8] + decimal(items.len()) + crlf() + encode_all(items),
    }
}

/// The encodings of `items`, one after the other.
pub open spec fn encode_all(items: Seq<FrameView>) -> Seq<u8>
    decreases items,
{
    if items.len() == 0 {
        Seq::empty()
    } else {
        encode(items[0]) + encode_all(items.drop_first())
    }
}

/// A frame that the protocol can carry: simple strings and errors hold no
/// line terminator, and every length fits the `u64` of a header.
pub open spec fn well_formed(f: FrameView) -> bool
    decreases f,
{
    match f {
        FrameView::Simple(s) => crlf_free(encode_utf8(s)),
        FrameView::Error(s) => crlf_free(encode_utf8(s)),
        FrameView::Integer(_) => true,
        FrameView::Bulk(b) => b.len() <= u64::MAX,
        FrameView::Null => true,
        FrameView::Array(items) => items.len() <= u64::MAX && all_well_formed(items),
    }
}

pub open spec fn all_well_formed(items: Seq<FrameView>) -> bool
    decreases items,
{
    if items.len() == 0 {
        true
    } else {
        well_formed(items[0]) && all_well_formed(items.drop_first())
    }
}

proof fn lemma_encode_all_push(items: Seq<FrameView>, f: FrameView)
    ensures
        encode_all(items.push(f)) == encode_all(items) + encode(f),
    decreases items.len(),
{
    if items.len() == 0 {
        assert(items.push(f).drop_first() =~= Seq::<FrameView>::empty());
        assert(encode_all(Seq::<FrameView>::empty()) == Seq::<u8>::empty());
        assert(items.push(f)[0] == f);
        assert(encode_all(items.push(f)) =~= encode(f));
    } else {
        assert(items.push(f).drop_first() =~= items.drop_first().push(f));
        lemma_encode_all_push(items.drop_first(), f);
        assert(encode_all(items.push(f)) =~= encode_all(items) + encode(f));
    }
}

fn push_crlf(out: &mut Vec<u8>)
    ensures
        final(out)@ == old(out)@ + crlf(),
{
    out.push(13);
    out.push(10);
    assert(final(out)@ =~= old(out)@ + crlf());
}

fn push_bytes(out: &mut Vec<u8>, bytes: &[u8])
    ensures
        final(out)@ == old(out)@ + bytes@,
{
    let mut i: usize = 0;
    while i < bytes.len()
        invariant
            i <= bytes@.len(),
            out@ == old(out)@ + bytes@.subrange(0, i as int),
        decreases bytes@.len() - i,
    {
        out.push(bytes[i]);
        i = i + 1;
        assert(out@ =~= old(out)@ + bytes@.subrange(0, i as int));
    }
    assert(bytes@.subrange(0, i as int) =~= bytes@);
}

/// Appends the encoding of `frame` to `out`.
pub fn write_frame(frame: &Frame, out: &mut Vec<u8>)
    ensures
        final(out)@ == old(out)@ + encode(frame@),
    decreases frame,
{
    match frame {
        Frame::Simple(s) => {
            out.push(43);
            push_bytes(out, s.as_str().as_bytes());
            push_crlf(out);
            assert(final(out)@ =~= old(out)@ + encode(frame@));
        },
        Frame::Error(s) => {
            out.push(45);
            push_bytes(out, s.as_str().as_bytes());
            push_crlf(out);
            assert(final(out)@ =~= old(out)@ + encode(frame@));
        },
        Frame::Integer(n) => {
            out.push(58);
            push_decimal(*n, out);
            push_crlf(out);
            assert(final(out)@ =~= old(out)@ + encode(frame@));
        },
        Frame::Bulk(b) => {
            out.push(36);
            push_decimal(b.len() as u64, out);
            push_crlf(out);
            push_bytes(out, b.as_slice());
            push_crlf(out);
            assert(final(out)@ =~= old(out)@ + encode(frame@));
        },
        Frame::Null => {
            out.push(36);
            out.push(45);
            out.push(49);
            push_crlf(out);
            assert(final(out)@ =~= old(out)@ + encode(frame@));
        },
        Frame::Array(items) => {
            proof {
                lemma_frames_view(items@);
            }
            out.push(42);
            push_decimal(items.len() as u64, out);
            push_crlf(out);
            let ghost header = out@;
            let mut i: usize = 0;
            while i < items.len()
                invariant
                    i <= items@.len(),
                    *frame == Frame::Array(*items),
                    out@ == header + encode_all(frames_view(items@).subrange(0, i as int)),
                    frames_view(items@).len() == items@.len(),
                    forall|k: int| 0 <= k < items@.len() ==> #[trigger] frames_view(items@)[k] == items@[k]@,
                decreases items@.len() - i,
            {
                proof {
                    assert(decreases_to!(*frame => (*frame)->Array_0));
                    assert((*frame)->Array_0 == *items);
                    assert(decreases_to!(*items => items@));
                    assert(decreases_to!(items@ => items@[i as int]));
                }
                write_frame(&items[i], out);
                proof {
                    let vs = frames_view(items@);
                    assert(vs.subrange(0, i + 1) =~= vs.subrange(0, i as int).push(items@[i as int]@));
                    lemma_encode_all_push(vs.subrange(0, i as int), items@[i as int]@);
                    assert(out@ =~= header + encode_all(vs.subrange(0, i + 1)));
                }
                i = i + 1;
            }
            assert(frames_view(items@).subrange(0, i as int) =~= frames_view(items@));
            assert(final(out)@ =~= old(out)@ + encode(frame@));
        },
    }
}


/// The outcome of reading a frame from the front of a byte sequence.
pub enum Decoded {
    /// A frame, and the number of bytes it takes.
    Complete(FrameView, nat),
    /// The bytes so far are a beginning that more bytes may complete.
    Incomplete,
    /// The bytes cannot begin a frame.
    Invalid,
}

/// The outcome of reading a given number of frames one after the other.
pub enum DecodedItems {
    Complete(Seq<FrameView>, nat),
    Incomplete,
    Invalid,
}

/// Why no frame could be read from a buffer.
#[derive(Debug, PartialEq, Eq, Structural)]
pub enum FrameError {
    /// More bytes are needed.
    Incomplete,
    /// The bytes break the protocol.
    Invalid,
}

/// The position of the first `\r\n` that starts at or after `i`.
pub open spec fn line_end(s: Seq<u8>, i: int) -> Option<int>
    decreases s.len() - i,
{
    if i < 0 || i + 1 >= s.len() {
        None
    } else if s[i] == 13 && s[i + 1] == 10 {
        Some(i)
    } else {
        line_end(s, i + 1)
    }
}

pub open spec fn is_type_byte(b: u8) -> bool {
    b == 43 || b == 45 || b == 58 || b == 36 || b == 42
}

/// Reads one frame from the front of `s`. The first byte gives the type:
/// `+` simple string, `-` error, `:` integer, `$` bulk string (or `$-1`
/// for null), `*` array. The header line ends at the first `\r\n`; numbers
/// are canonical decimals; a bulk string is followed by `\r\n`; an array
/// header is followed by its items.
pub open spec fn decode(s: Seq<u8>) -> Decoded
    decreases s.len(), 0nat,
{
    if s.len() == 0 {
        Decoded::Incomplete
    } else if !is_type_byte(s[0]) {
        Decoded::Invalid
    } else {
        match line_end(s, 1) {
            None => Decoded::Incomplete,
            Some(e) => {
                let tag = s[0];
                let line = s.subrange(1, e);
                let next = e + 2;
                if tag == 43 {
                    if valid_utf8(line) {
                        Decoded::Complete(FrameView::Simple(decode_utf8(line)), next as nat)
                    } else {
                        Decoded::Invalid
                    }
                } else if tag == 45 {
                    if valid_utf8(line) {
                        Decoded::Complete(FrameView::Error(decode_utf8(line)), next as nat)
                    } else {
                        Decoded::Invalid
                    }
                } else if tag == 58 {
                    match parse_u64_spec(line) {
                        Some(n) => Decoded::Complete(FrameView::Integer(n), next as nat),
                        None => Decoded::Invalid,
                    }
                } else if tag == 36 {
                    if line == seq![45u8, 49u8] {
                        Decoded::Complete(FrameView::Null, next as nat)
                    } else {
                        match parse_u64_spec(line) {
                            None => Decoded::Invalid,
                            Some(n) => if s.len() < next + n + 2 {
                                Decoded::Incomplete
                            } else if s[next + n] == 13 && s[next + n + 1] == 10 {
                                Decoded::Complete(
                                    FrameView::Bulk(s.subrange(next, next + n)),
                                    (next + n + 2) as nat,
                                )
                            } else {
                                Decoded::Invalid
                            },
                        }
                    }
                } else {
                    match parse_u64_spec(line) {
                        None => Decoded::Invalid,
                        Some(n) => {
                            proof {
                                lemma_line_end(s, 1);
                            }
                            match decode_items(s.subrange(next, s.len() as int), n as nat) {
                                DecodedItems::Complete(items, m) => Decoded::Complete(
                                    FrameView::Array(items),
                                    (next + m) as nat,
                                ),
                                DecodedItems::Incomplete => Decoded::Incomplete,
                                DecodedItems::Invalid => Decoded::Invalid,
                            }
                        },
                    }
                }
            },
        }
    }
}

/// Reads `count` frames one after the other from the front of `s`.
pub open spec fn decode_items(s: Seq<u8>, count: nat) -> DecodedItems
    decreases s.len(), count + 1,
{
    if count == 0 {
        DecodedItems::Complete(Seq::empty(), 0)
    } else {
        match decode(s) {
            Decoded::Complete(f, m) => if m <= s.len() {
                match decode_items(s.subrange(m as int, s.len() as int), (count - 1) as nat) {
                    DecodedItems::Complete(rest, k) => DecodedItems::Complete(seq![f] + rest, m + k),
                    DecodedItems::Incomplete => DecodedItems::Incomplete,
                    DecodedItems::Invalid => DecodedItems::Invalid,
                }
            } else {
                DecodedItems::Invalid
            },
            Decoded::Incomplete => DecodedItems::Incomplete,
            Decoded::Invalid => DecodedItems::Invalid,
        }
    }
}

pub proof fn lemma_line_end(s: Seq<u8>, i: int)
    ensures
        line_end(s, i) matches Some(e) ==> {
            &&& 0 <= i <= e
            &&& e + 1 < s.len()
            &&& s[e] == 13 && s[e + 1] == 10
            &&& forall|k: int| i <= k < e ==> !(#[trigger] s[k] == 13 && s[k + 1] == 10)
        },
    decreases s.len() - i,
{
    if i < 0 || i + 1 >= s.len() {
    } else if s[i] == 13 && s[i + 1] == 10 {
    } else {
        lemma_line_end(s, i + 1);
    }
}

/// The relation between the result of an exec decode and `decode`.
pub open spec fn decode_result_matches(s: Seq<u8>, r: Result<(Frame, usize), FrameError>) -> bool {
    match decode(s) {
        Decoded::Complete(f, n) => r matches Ok((fr, m)) && fr@ == f && m == n && m <= s.len(),
        Decoded::Incomplete => r == Err::<(Frame, usize), FrameError>(FrameError::Incomplete),
        Decoded::Invalid => r == Err::<(Frame, usize), FrameError>(FrameError::Invalid),
    }
}

pub open spec fn items_result_matches(
    s: Seq<u8>,
    count: nat,
    r: Result<(Vec<Frame>, usize), FrameError>,
) -> bool {
    match decode_items(s, count) {
        DecodedItems::Complete(items, n) => r matches Ok((v, m)) && frames_view(v@) == items && m == n
            && m <= s.len(),
        DecodedItems::Incomplete => r == Err::<(Vec<Frame>, usize), FrameError>(FrameError::Incomplete),
        DecodedItems::Invalid => r == Err::<(Vec<Frame>, usize), FrameError>(FrameError::Invalid),
    }
}

fn find_line_end(s: &[u8], from: usize) -> (r: Option<usize>)
    requires
        from >= 1,
    ensures
        r matches Some(e) ==> line_end(s@, from as int) == Some(e as int),
        r is None ==> line_end(s@, from as int) is None,
{
    let mut i = from;
    while i < s.len() && i + 1 < s.len()
        invariant
            from <= i,
            line_end(s@, from as int) == line_end(s@, i as int),
        decreases s@.len() - i,
    {
        if s[i] == 13 && s[i + 1] == 10 {
            return Some(i);
        }
        i = i + 1;
    }
    None
}

/// Reads one frame from the front of `s`: the frame and the number of
/// bytes it takes, or why there is none.
pub fn parse_frame(s: &[u8]) -> (r: Result<(Frame, usize), FrameError>)
    ensures
        decode_result_matches(s@, r),
    decreases s@.len(), 0nat,
{
    if s.len() == 0 {
        return Err(FrameError::Incomplete);
    }
    let tag = s[0];
    if !(tag == 43 || tag == 45 || tag == 58 || tag == 36 || tag == 42) {
        return Err(FrameError::Invalid);
    }
    let e = match find_line_end(s, 1) {
        None => {
            return Err(FrameError::Incomplete);
        },
        Some(e) => e,
    };
    proof {
        lemma_line_end(s@, 1);
    }
    let ghost line = s@.subrange(1, e as int);
    let next = e + 2;
    if tag == 43 || tag == 45 {
        let bytes = slice_to_vec(slice_subrange(s, 1, e));
        assert(bytes@ == line);
        match string_from_utf8(bytes) {
            Some(text) => {
                if tag == 43 {
                    Ok((Frame::Simple(text), next))
                } else {
                    Ok((Frame::Error(text), next))
                }
            },
            None => Err(FrameError::Invalid),
        }
    } else if tag == 58 {
        match parse_u64(s, 1, e) {
            Some(n) => Ok((Frame::Integer(n), next)),
            None => Err(FrameError::Invalid),
        }
    } else if tag == 36 {
        if e == 3 && s[1] == 45 && s[2] == 49 {
            assert(line =~= seq![45u8, 49u8]);
            return Ok((Frame::Null, next));
        }
        assert(line != seq![45u8, 49u8]);
        match parse_u64(s, 1, e) {
            None => Err(FrameError::Invalid),
            Some(n) => {
                let avail = (s.len() - next) as u64;
                if n > avail || avail - n < 2 {
                    return Err(FrameError::Incomplete);
                }
                let n = n as usize;
                if s[next + n] == 13 && s[next + n + 1] == 10 {
                    let data = slice_to_vec(slice_subrange(s, next, next + n));
                    Ok((Frame::Bulk(data), next + n + 2))
                } else {
                    Err(FrameError::Invalid)
                }
            },
        }
    } else {
        match parse_u64(s, 1, e) {
            None => Err(FrameError::Invalid),
            Some(n) => {
                let rest = slice_subrange(s, next, s.len());
                match parse_items(rest, n) {
                    Ok((items, m)) => Ok((Frame::Array(items), next + m)),
                    Err(err) => Err(err),
                }
            },
        }
    }
}

pub open spec fn after(done: Seq<FrameView>, pos: nat, r: DecodedItems) -> DecodedItems {
    match r {
        DecodedItems::Complete(rest, k) => DecodedItems::Complete(done + rest, pos + k),
        other => other,
    }
}

/// Reads `count` frames one after the other from the front of `s`.
fn parse_items(s: &[u8], count: u64) -> (r: Result<(Vec<Frame>, usize), FrameError>)
    ensures
        items_result_matches(s@, count as nat, r),
    decreases s@.len(), count + 1,
{
    let mut items: Vec<Frame> = Vec::new();
    let mut pos: usize = 0;
    let mut i: u64 = 0;
    assert(decode_items(s@, count as nat) == after(Seq::empty(), 0, decode_items(s@.subrange(0, s@.len() as int), count as nat))) by {
        assert(s@.subrange(0, s@.len() as int) =~= s@);
        assert(forall|x: Seq<FrameView>| Seq::<FrameView>::empty() + x =~= x);
    }
    while i < count
        invariant
            i <= count,
            pos <= s@.len(),
            decode_items(s@, count as nat) == after(
                frames_view(items@),
                pos as nat,
                decode_items(s@.subrange(pos as int, s@.len() as int), (count - i) as nat),
            ),
        decreases count - i,
    {
        let ghost tail = s@.subrange(pos as int, s@.len() as int);
        let rest = slice_subrange(s, pos, s.len());
        match parse_frame(rest) {
            Ok((f, m)) => {
                let ghost fv = f@;
                proof {
                    assert(tail.subrange(m as int, tail.len() as int) =~= s@.subrange(pos + m, s@.len() as int));
                    let later = decode_items(s@.subrange(pos + m, s@.len() as int), (count - i - 1) as nat);
                    assert(frames_view(items@.push(f)) == frames_view(items@).push(fv)) by {
                        assert(items@.push(f).drop_last() =~= items@);
                    }
                    match later {
                        DecodedItems::Complete(r2, k) => {
                            assert(frames_view(items@) + (seq![fv] + r2) =~= frames_view(items@).push(fv) + r2);
                        },
                        _ => {},
                    }
                }
                items.push(f);
                pos = pos + m;
                i = i + 1;
            },
            Err(err) => {
                return Err(err);
            },
        }
    }
    proof {
        assert(decode_items(s@.subrange(pos as int, s@.len() as int), 0) == DecodedItems::Complete(Seq::empty(), 0));
        assert(frames_view(items@) + Seq::<FrameView>::empty() =~= frames_view(items@));
    }
    Ok((items, pos))
}


proof fn lemma_line_end_at(s: Seq<u8>, i: int, j: int)
    requires
        0 <= i <= j,
        j + 1 < s.len(),
        s[j] == 13 && s[j + 1] == 10,
        forall|k: int| i <= k < j ==> !(#[trigger] s[k] == 13 && s[k + 1] == 10),
    ensures
        line_end(s, i) == Some(j),
    decreases j - i,
{
    if i < j {
        lemma_line_end_at(s, i + 1, j);
    }
}

/// A header line: a type byte, then `content` up to the first `\r\n`.
proof fn lemma_header_line(tag: u8, content: Seq<u8>, tail: Seq<u8>)
    requires
        crlf_free(content),
    ensures
        ({
            let s = seq![tag] + content + crlf() + tail;
            &&& s[0] == tag
            &&& line_end(s, 1) == Some(1 + content.len() as int)
            &&& s.subrange(1, 1 + content.len() as int) == content
            &&& s.subrange(1 + content.len() as int + 2, s.len() as int) == tail
        }),
{
    let s = seq![tag] + content + crlf() + tail;
    let j = 1 + content.len() as int;
    assert(s[j] == 13 && s[j + 1] == 10);
    assert forall|k: int| 1 <= k < j implies !(#[trigger] s[k] == 13 && s[k + 1] == 10) by {
        assert(s[k] == content[k - 1]);
        if k < j - 1 {
            assert(s[k + 1] == content[k]);
        }
    }
    lemma_line_end_at(s, 1, j);
    assert(s.subrange(1, j) =~= content);
    assert(s.subrange(j + 2, s.len() as int) =~= tail);
}

proof fn lemma_digits_crlf_free(d: Seq<u8>)
    requires
        all_digits(d),
    ensures
        crlf_free(d),
{
    assert forall|j: int| 0 <= j < d.len() - 1 implies !(#[trigger] d[j] == 13 && d[j + 1] == 10) by {
        assert(is_digit(d[j]));
    }
}

proof fn lemma_decimal_header(tag: u8, n: nat, tail: Seq<u8>)
    requires
        n <= u64::MAX,
    ensures
        ({
            let s = seq![tag] + decimal(n) + crlf() + tail;
            &&& s[0] == tag
            &&& line_end(s, 1) == Some(1 + decimal(n).len() as int)
            &&& s.subrange(1, 1 + decimal(n).len() as int) == decimal(n)
            &&& s.subrange(1 + decimal(n).len() as int + 2, s.len() as int) == tail
            &&& parse_u64_spec(decimal(n)) == Some(n as u64)
            &&& decimal(n) != seq![45u8, 49u8]
        }),
{
    lemma_decimal_shape(n);
    lemma_digits_crlf_free(decimal(n));
    lemma_header_line(tag, decimal(n), tail);
}

/// Law: reading the bytes that encode a well-formed frame gives that frame
/// back, and takes exactly those bytes, whatever follows them.
pub proof fn lemma_decode_encode(f: FrameView, rest: Seq<u8>)
    requires
        well_formed(f),
    ensures
        decode(encode(f) + rest) == Decoded::Complete(f, encode(f).len()),
    decreases f,
{
    let s = encode(f) + rest;
    match f {
        FrameView::Simple(t) => {
            let c = encode_utf8(t);
            assert(s =~= seq![43u8] + c + crlf() + rest);
            lemma_header_line(43, c, rest);
        },
        FrameView::Error(t) => {
            let c = encode_utf8(t);
            assert(s =~= seq![45u8] + c + crlf() + rest);
            lemma_header_line(45, c, rest);
        },
        FrameView::Integer(n) => {
            assert(s =~= seq![58u8] + decimal(n as nat) + crlf() + rest);
            lemma_decimal_header(58, n as nat, rest);
        },
        FrameView::Bulk(b) => {
            let d = decimal(b.len());
            let tail = b + crlf() + rest;
            assert(s =~= seq![36u8] + d + crlf() + tail);
            lemma_decimal_header(36, b.len(), tail);
            let next: int = 1 + d.len() as int + 2;
            assert(s.subrange(next, next + b.len() as int) =~= b);
            assert(s[next + b.len() as int] == 13 && s[next + b.len() as int + 1] == 10);
        },
        FrameView::Null => {
            assert(s[0] == 36);
            lemma_line_end_at(s, 1, 3);
            assert(s.subrange(1, 3) =~= seq![45u8, 49u8]);
        },
        FrameView::Array(items) => {
            let d = decimal(items.len());
            let tail = encode_all(items) + rest;
            assert(s =~= seq![42u8] + d + crlf() + tail);
            lemma_decimal_header(42, items.len(), tail);
            lemma_decode_items_encode_all(items, rest);
        },
    }
}

/// Reading `items.len()` frames from their encodings gives the items back.
pub proof fn lemma_decode_items_encode_all(items: Seq<FrameView>, rest: Seq<u8>)
    requires
        all_well_formed(items),
    ensures
        decode_items(encode_all(items) + rest, items.len())
            == DecodedItems::Complete(items, encode_all(items).len()),
    decreases items,
{
    let s = encode_all(items) + rest;
    if items.len() > 0 {
        let first = items[0];
        let others = items.drop_first();
        let after_first = encode_all(others) + rest;
        assert(s =~= encode(first) + after_first);
        lemma_decode_encode(first, after_first);
        let m = encode(first).len();
        assert(s.subrange(m as int, s.len() as int) =~= after_first);
        lemma_decode_items_encode_all(others, rest);
        assert(seq![first] + others =~= items);
        assert(encode_all(items) == encode(first) + encode_all(others));
        assert(others.len() == (items.len() - 1) as nat);
    } else {
        assert(items =~= Seq::<FrameView>::empty());
        assert(encode_all(items).len() == 0);
    }
}

/// Law: when `decode` finds a complete frame, the frame is well formed and
/// the bytes it took are exactly its encoding.
pub proof fn lemma_decode_sound(s: Seq<u8>)
    ensures
        decode(s) matches Decoded::Complete(f, n) ==> {
            &&& well_formed(f)
            &&& n <= s.len()
            &&& s.subrange(0, n as int) == encode(f)
        },
    decreases s.len(), 0nat,
{
    if s.len() > 0 && is_type_byte(s[0]) {
        lemma_line_end(s, 1);
        match line_end(s, 1) {
            None => {},
            Some(e) => {
                let tag = s[0];
                let line = s.subrange(1, e);
                let next = e + 2;
                assert(crlf_free(line)) by {
                    assert forall|j: int| 0 <= j < line.len() - 1 implies !(#[trigger] line[j] == 13
                        && line[j + 1] == 10) by {
                        assert(line[j] == s[1 + j] && line[j + 1] == s[2 + j]);
                    }
                }
                if tag == 43 || tag == 45 {
                    if valid_utf8(line) {
                        vstd::utf8::decode_utf8_encode_utf8(line);
                        assert(s.subrange(0, next) =~= seq![tag] + line + crlf());
                    }
                } else if tag == 58 {
                    if parse_u64_spec(line) is Some {
                        lemma_canonical_decimal_unique(line);
                        assert(s.subrange(0, next) =~= seq![tag] + line + crlf());
                    }
                } else if tag == 36 {
                    if line == seq![45u8, 49u8] {
                        assert(s.subrange(0, next) =~= seq![36u8, 45u8, 49u8, 13u8, 10u8]);
                    } else if let Some(n) = parse_u64_spec(line) {
                        lemma_canonical_decimal_unique(line);
                        if s.len() >= next + n + 2 && s[next + n] == 13 && s[next + n + 1] == 10 {
                            let b = s.subrange(next, next + n);
                            assert(s.subrange(0, next + n + 2) =~= seq![tag] + line + crlf() + b
                                + crlf());
                        }
                    }
                } else {
                    if let Some(n) = parse_u64_spec(line) {
                        let tail = s.subrange(next, s.len() as int);
                        lemma_decode_items_sound(tail, n as nat);
                        if let DecodedItems::Complete(items, m) = decode_items(tail, n as nat) {
                            lemma_canonical_decimal_unique(line);
                            assert(tail.subrange(0, m as int) =~= s.subrange(next, next + m));
                            assert(s.subrange(0, next + m) =~= seq![tag] + line + crlf()
                                + tail.subrange(0, m as int));
                        }
                    }
                }
            },
        }
    }
}

/// The items that `decode_items` finds are well formed, as many as asked,
/// and the bytes they took are exactly their encodings.
pub proof fn lemma_decode_items_sound(s: Seq<u8>, count: nat)
    ensures
        decode_items(s, count) matches DecodedItems::Complete(items, n) ==> {
            &&& all_well_formed(items)
            &&& items.len() == count
            &&& n <= s.len()
            &&& s.subrange(0, n as int) == encode_all(items)
        },
    decreases s.len(), count + 1,
{
    if count == 0 {
        assert(s.subrange(0, 0) =~= Seq::<u8>::empty());
    } else {
        lemma_decode_sound(s);
        if let Decoded::Complete(f, m) = decode(s) {
            if m <= s.len() {
                let tail = s.subrange(m as int, s.len() as int);
                lemma_decode_items_sound(tail, (count - 1) as nat);
                if let DecodedItems::Complete(r, k) = decode_items(tail, (count - 1) as nat) {
                    let items = seq![f] + r;
                    assert(items[0] == f);
                    assert(items.drop_first() =~= r);
                    assert(tail.subrange(0, k as int) =~= s.subrange(m as int, (m + k) as int));
                    assert(s.subrange(0, (m + k) as int) =~= s.subrange(0, m as int) + s.subrange(m as int, (m + k) as int));
                }
            }
        }
    }
}

/// Law: `s` begins with a complete frame `f` of `n` bytes exactly when `f`
/// is well formed and the first `n` bytes of `s` are its encoding.
pub proof fn lemma_decode_complete_iff(s: Seq<u8>, f: FrameView, n: nat)
    ensures
        decode(s) == Decoded::Complete(f, n) <==> {
            &&& well_formed(f)
            &&& n <= s.len()
            &&& s.subrange(0, n as int) == encode(f)
        },
{
    lemma_decode_sound(s);
    if well_formed(f) && n <= s.len() && s.subrange(0, n as int) == encode(f) {
        let rest = s.subrange(n as int, s.len() as int);
        assert(s =~= encode(f) + rest);
        lemma_decode_encode(f, rest);
    }
}

/// Law: once a buffer begins with a complete frame, bytes that arrive
/// after it do not change what is read.
pub proof fn lemma_decode_stable(s: Seq<u8>, more: Seq<u8>)
    ensures
        decode(s) is Complete ==> decode(s + more) == decode(s),
{
    lemma_decode_sound(s);
    if let Decoded::Complete(f, n) = decode(s) {
        let rest = s.subrange(n as int, s.len() as int) + more;
        assert(s + more =~= encode(f) + rest);
        lemma_decode_encode(f, rest);
    }
}


impl Frame {
    /// A bulk string that holds the UTF-8 bytes of `s`.
    pub fn bulk_from_str(s: &str) -> (f: Frame)
        ensures
            f@ == FrameView::Bulk(encode_utf8(s@)),
    {
        Frame::Bulk(slice_to_vec(s.as_bytes()))
    }

    /// Whether this frame is a simple or bulk string that holds `text`.
    pub fn eq_text(&self, text: &str) -> (r: bool)
        ensures
            r == frame_is_text(self@, text@),
    {
        match self {
            Frame::Simple(s) => str_eq(s.as_str(), text),
            Frame::Bulk(b) => bytes_eq(b.as_slice(), text.as_bytes()),
            _ => false,
        }
    }
}

/// `f` is a simple string or a bulk string that holds `text`.
pub open spec fn frame_is_text(f: FrameView, text: Seq<char>) -> bool {
    match f {
        FrameView::Simple(s) => s == text,
        FrameView::Bulk(b) => b == encode_utf8(text),
        _ => false,
    }
}

proof fn lemma_line_end_none(s: Seq<u8>, i: int)
    requires
        0 <= i,
        forall|j: int| i <= j && j + 1 < s.len() ==> !(#[trigger] s[j] == 13 && s[j + 1] == 10),
    ensures
        line_end(s, i) is None,
    decreases s.len() - i,
{
    if i + 1 < s.len() {
        lemma_line_end_none(s, i + 1);
    }
}

/// A beginning of a header line that stops before its `\r\n` is complete
/// is read as incomplete.
proof fn lemma_header_prefix(tag: u8, content: Seq<u8>, tail: Seq<u8>, k: int)
    requires
        is_type_byte(tag),
        crlf_free(content),
        1 <= k <= content.len() + 2,
    ensures
        decode((seq![tag] + content + crlf() + tail).subrange(0, k)) == Decoded::Incomplete,
{
    let full = seq![tag] + content + crlf() + tail;
    let s = full.subrange(0, k);
    assert forall|j: int| 1 <= j && j + 1 < s.len() implies !(#[trigger] s[j] == 13 && s[j + 1]
        == 10) by {
        assert(s[j] == content[j - 1]);
        if j + 1 <= content.len() {
            assert(s[j + 1] == content[j]);
        } else {
            assert(s[j + 1] == 13);
        }
    }
    lemma_line_end_none(s, 1);
    assert(s[0] == tag);
}

/// Law: a strict beginning of the encoding of a well-formed frame is never
/// rejected: reading it asks for more bytes.
pub proof fn lemma_decode_prefix_incomplete(f: FrameView, k: int)
    requires
        well_formed(f),
        0 <= k < encode(f).len(),
    ensures
        decode(encode(f).subrange(0, k)) == Decoded::Incomplete,
    decreases f,
{
    let e = encode(f);
    if k == 0 {
        return;
    }
    match f {
        FrameView::Simple(t) => {
            assert(e =~= seq![43u8] + encode_utf8(t) + crlf() + Seq::<u8>::empty());
            lemma_header_prefix(43, encode_utf8(t), Seq::<u8>::empty(), k);
        },
        FrameView::Error(t) => {
            assert(e =~= seq![45u8] + encode_utf8(t) + crlf() + Seq::<u8>::empty());
            lemma_header_prefix(45, encode_utf8(t), Seq::<u8>::empty(), k);
        },
        FrameView::Integer(n) => {
            lemma_decimal_shape(n as nat);
            lemma_digits_crlf_free(decimal(n as nat));
            assert(e =~= seq![58u8] + decimal(n as nat) + crlf() + Seq::<u8>::empty());
            lemma_header_prefix(58, decimal(n as nat), Seq::<u8>::empty(), k);
        },
        FrameView::Null => {
            let c = seq![45u8, 49u8];
            assert(crlf_free(c));
            assert(e =~= seq![36u8] + c + crlf() + Seq::<u8>::empty());
            lemma_header_prefix(36, c, Seq::<u8>::empty(), k);
        },
        FrameView::Bulk(b) => {
            let d = decimal(b.len());
            lemma_decimal_shape(b.len());
            lemma_digits_crlf_free(d);
            let body = b + crlf();
            assert(e =~= seq![36u8] + d + crlf() + body);
            if k <= d.len() + 2 {
                lemma_header_prefix(36, d, body, k);
            } else {
                let x = body.subrange(0, k - d.len() - 3);
                let p = e.subrange(0, k);
                assert(p =~= seq![36u8] + d + crlf() + x);
                lemma_decimal_header(36, b.len(), x);
            }
        },
        FrameView::Array(items) => {
            let d = decimal(items.len());
            lemma_decimal_shape(items.len());
            lemma_digits_crlf_free(d);
            let body = encode_all(items);
            assert(e =~= seq![42u8] + d + crlf() + body);
            if k <= d.len() + 2 {
                lemma_header_prefix(42, d, body, k);
            } else {
                let next = d.len() + 3;
                let x = body.subrange(0, k - next);
                let p = e.subrange(0, k);
                assert(p =~= seq![42u8] + d + crlf() + x);
                lemma_decimal_header(42, items.len(), x);
                lemma_decode_items_prefix_incomplete(items, k - next);
            }
        },
    }
}

/// A strict beginning of the encodings of well-formed items is read as
/// incomplete.
pub proof fn lemma_decode_items_prefix_incomplete(items: Seq<FrameView>, k: int)
    requires
        all_well_formed(items),
        0 <= k < encode_all(items).len(),
    ensures
        decode_items(encode_all(items).subrange(0, k), items.len()) == DecodedItems::Incomplete,
    decreases items,
{
    let first = items[0];
    let others = items.drop_first();
    let e0 = encode(first);
    let rest = encode_all(others);
    assert(encode_all(items) == e0 + rest);
    let p = encode_all(items).subrange(0, k);
    if k < e0.len() {
        assert(p =~= e0.subrange(0, k));
        lemma_decode_prefix_incomplete(first, k);
    } else {
        let r = rest.subrange(0, k - e0.len());
        assert(p =~= e0 + r);
        lemma_decode_encode(first, r);
        assert(p.subrange(e0.len() as int, p.len() as int) =~= r);
        assert(r =~= encode_all(others).subrange(0, k - e0.len()));
        lemma_decode_items_prefix_incomplete(others, k - e0.len());
        assert(others.len() == (items.len() - 1) as nat);
    }
}

} // verus!
