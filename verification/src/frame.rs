//! The wire-format codec: frames, their byte-level grammar, and the
//! streaming decoder and encoder.
//!
//! A frame is one protocol message. On the wire every frame starts with a
//! one-byte type marker, followed either by a CRLF-terminated text line
//! (simple strings, errors, integers) or by a CRLF-terminated length line and
//! a payload (bulk strings, arrays). A negative length is the null sentinel.
//!
//! Decoding is streaming: a buffer that merely ends too early yields
//! `Incomplete`, never an error, and leaves the cursor where it started, so
//! the same attempt can be retried once more bytes arrive. Bytes that can
//! never become a valid frame yield `Protocol`.

use vstd::prelude::*;
use vstd::utf8::{valid_utf8, decode_utf8, encode_utf8};
use vstd::slice::{slice_subrange, slice_to_vec};

verus! {

/// Byte value of `'\r'`.
pub const CR: u8 = 13;

/// Byte value of `'\n'`.
pub const LF: u8 = 10;

/// One decoded protocol message.
#[derive(Debug, PartialEq)]
pub enum Frame {
    /// A short CRLF-terminated text line, marker `+`.
    SimpleString(String),
    /// An error report, marker `-`, same shape as a simple string.
    Error(String),
    /// A signed 64-bit integer, marker `:`.
    Integer(i64),
    /// A length-prefixed run of raw bytes, marker `$`.
    BulkString(Vec<u8>),
    /// An ordered sequence of nested frames, marker `*`.
    Array(Vec<Frame>),
    /// The absence marker, written as a negative length.
    Null,
}

/// The mathematical shape of a frame: text as character sequences, payloads
/// as byte sequences, nesting as sequences of models.
#[verifier::ext_equal]
pub enum FrameModel {
    Simple(Seq<char>),
    Error(Seq<char>),
    Integer(int),
    Bulk(Seq<u8>),
    Array(Seq<FrameModel>),
    Null,
}

impl Frame {
    /// The model this frame denotes.
    pub open spec fn view(&self) -> FrameModel
        decreases *self,
    {
        match *self {
            Frame::SimpleString(ref s) => FrameModel::Simple(s@),
            Frame::Error(ref s) => FrameModel::Error(s@),
            Frame::Integer(n) => FrameModel::Integer(n as int),
            Frame::BulkString(ref d) => FrameModel::Bulk(d@),
            Frame::Array(ref v) => FrameModel::Array(models_of(v@)),
            Frame::Null => FrameModel::Null,
        }
    }
}

/// The models of a sequence of frames, in order.
pub open spec fn models_of(v: Seq<Frame>) -> Seq<FrameModel>
    decreases v,
{
    if v.len() == 0 {
        Seq::empty()
    } else {
        seq![v[0]@] + models_of(v.drop_first())
    }
}

/// What one decode attempt can report.
#[derive(Debug, Clone, Copy, PartialEq, Eq, Structural)]
pub enum FrameError {
    /// The buffer holds a valid prefix of a frame but ends too early.
    /// Ordinary streaming state, not a failure.
    Incomplete,
    /// The buffer can never become a valid frame, however it is extended.
    Protocol,
}

/// Outcome of parsing one frame from a byte sequence at a position.
#[verifier::ext_equal]
pub enum Parsed {
    /// A whole frame was found; parsing consumed the bytes up to `end`.
    Found(FrameModel, int),
    /// The bytes end before the frame does.
    Partial,
    /// The bytes are malformed.
    Fail,
}

/// Outcome of parsing a run of consecutive frames.
#[verifier::ext_equal]
pub enum ParsedElems {
    Found(Seq<FrameModel>, int),
    Partial,
    Fail,
}

/// Prefixes already-parsed models onto the outcome of the rest of a run.
pub open spec fn elems_prepend(ms: Seq<FrameModel>, rest: ParsedElems) -> ParsedElems {
    match rest {
        ParsedElems::Found(ms2, end) => ParsedElems::Found(ms + ms2, end),
        ParsedElems::Partial => ParsedElems::Partial,
        ParsedElems::Fail => ParsedElems::Fail,
    }
}

/// A CRLF pair starts at position `i`, wholly inside the buffer.
/// A lone `\r` as the final byte does not count: only a contiguous `\r\n`
/// is a terminator.
pub open spec fn crlf_at(b: Seq<u8>, i: int) -> bool {
    0 <= i && i + 1 < b.len() && b[i] == CR && b[i + 1] == LF
}

/// The position of the first CRLF pair at or after `pos`, or -1 if the
/// buffer ends without one.
pub open spec fn find_crlf(b: Seq<u8>, pos: int) -> int
    decreases b.len() - pos,
{
    if pos < 0 || pos + 1 >= b.len() {
        -1
    } else if b[pos] == CR && b[pos + 1] == LF {
        pos
    } else {
        find_crlf(b, pos + 1)
    }
}

/// Everything `find_crlf` promises: it returns either -1, and then no CRLF
/// pair starts at or after `pos`, or the position of the first such pair.
pub proof fn lemma_find_crlf(b: Seq<u8>, pos: int)
    requires
        0 <= pos,
    ensures
        ({ let r = find_crlf(b, pos);
            &&& r == -1 || pos <= r
            &&& r >= 0 ==> crlf_at(b, r)
            &&& r >= 0 ==> forall|j: int| pos <= j < r ==> !crlf_at(b, j)
            &&& r == -1 ==> forall|j: int| pos <= j ==> !crlf_at(b, j)
        }),
    decreases b.len() - pos,
{
    if pos >= 0 && pos + 1 < b.len() && !(b[pos] == CR && b[pos + 1] == LF) {
        lemma_find_crlf(b, pos + 1);
    }
}

/// Every byte of `s` is an ASCII decimal digit.
pub open spec fn all_digits(s: Seq<u8>) -> bool {
    forall|i: int| 0 <= i < s.len() ==> 48 <= #[trigger] s[i] <= 57
}

/// The value of a digit string, most significant digit first.
pub open spec fn digits_val(s: Seq<u8>) -> int
    decreases s.len(),
{
    if s.len() == 0 {
        0
    } else {
        digits_val(s.drop_last()) * 10 + (s.last() - 48)
    }
}

/// The line is a well-formed signed decimal integer: an optional leading
/// minus sign followed by at least one digit.
pub open spec fn valid_int_line(s: Seq<u8>) -> bool {
    if s.len() > 0 && s[0] == 45 {
        s.len() > 1 && all_digits(s.skip(1))
    } else {
        s.len() > 0 && all_digits(s)
    }
}

/// The signed value of a well-formed integer line.
pub open spec fn int_line_val(s: Seq<u8>) -> int {
    if s.len() > 0 && s[0] == 45 {
        -digits_val(s.skip(1))
    } else {
        digits_val(s)
    }
}

/// The integer fits a signed 64-bit value.
pub open spec fn i64_in_range(v: int) -> bool {
    -0x8000_0000_0000_0000 <= v <= 0x7fff_ffff_ffff_ffff
}

/// An integer line that a decoder must accept: well formed and in range.
/// A line whose value cannot fit 64 bits can never become valid, so it is
/// malformed, not incomplete.
pub open spec fn valid_i64_line(s: Seq<u8>) -> bool {
    valid_int_line(s) && i64_in_range(int_line_val(s))
}

/// Parses one frame out of `b` starting at `pos`. This is the grammar:
/// everything the executable decoder does is stated against it.
pub open spec fn spec_parse(b: Seq<u8>, pos: int) -> Parsed
    decreases b.len() - pos, 0int,
    via spec_parse_decreases
{
    if pos < 0 || pos > b.len() {
        Parsed::Fail
    } else if pos == b.len() {
        Parsed::Partial
    } else {
        let marker = b[pos];
        let e = find_crlf(b, pos + 1);
        if marker == 43 || marker == 45 {
            // '+' simple string, '-' error: one text line, decoded as UTF-8
            if e < 0 {
                Parsed::Partial
            } else {
                let line = b.subrange(pos + 1, e);
                if valid_utf8(line) {
                    if marker == 43 {
                        Parsed::Found(FrameModel::Simple(decode_utf8(line)), e + 2)
                    } else {
                        Parsed::Found(FrameModel::Error(decode_utf8(line)), e + 2)
                    }
                } else {
                    Parsed::Fail
                }
            }
        } else if marker == 58 {
            // ':' integer: one signed decimal line
            if e < 0 {
                Parsed::Partial
            } else {
                let line = b.subrange(pos + 1, e);
                if valid_i64_line(line) {
                    Parsed::Found(FrameModel::Integer(int_line_val(line)), e + 2)
                } else {
                    Parsed::Fail
                }
            }
        } else if marker == 36 {
            // '$' bulk string: a length line, then that many bytes and CRLF
            if e < 0 {
                Parsed::Partial
            } else {
                let line = b.subrange(pos + 1, e);
                if !valid_i64_line(line) {
                    Parsed::Fail
                } else {
                    let n = int_line_val(line);
                    if n < 0 {
                        Parsed::Found(FrameModel::Null, e + 2)
                    } else if e + 2 + n + 2 > b.len() {
                        Parsed::Partial
                    } else if b[e + 2 + n] == CR && b[e + 2 + n + 1] == LF {
                        Parsed::Found(FrameModel::Bulk(b.subrange(e + 2, e + 2 + n)), e + 2 + n + 2)
                    } else {
                        Parsed::Fail
                    }
                }
            }
        } else if marker == 42 {
            // '*' array: a count line, then that many nested frames
            if e < 0 {
                Parsed::Partial
            } else {
                let line = b.subrange(pos + 1, e);
                if !valid_i64_line(line) {
                    Parsed::Fail
                } else {
                    let n = int_line_val(line);
                    if n < 0 {
                        Parsed::Found(FrameModel::Null, e + 2)
                    } else {
                        match spec_parse_elems(b, e + 2, n) {
                            ParsedElems::Found(ms, end) => Parsed::Found(FrameModel::Array(ms), end),
                            ParsedElems::Partial => Parsed::Partial,
                            ParsedElems::Fail => Parsed::Fail,
                        }
                    }
                }
            }
        } else {
            Parsed::Fail
        }
    }
}

#[via_fn]
proof fn spec_parse_decreases(b: Seq<u8>, pos: int) {
    if 0 <= pos < b.len() {
        lemma_find_crlf(b, pos + 1);
    }
}

/// Parses `count` consecutive frames starting at `pos`.
pub open spec fn spec_parse_elems(b: Seq<u8>, pos: int, count: int) -> ParsedElems
    decreases b.len() - pos, 1int,
{
    if pos < 0 || pos > b.len() {
        ParsedElems::Fail
    } else if count <= 0 {
        ParsedElems::Found(Seq::empty(), pos)
    } else {
        match spec_parse(b, pos) {
            Parsed::Found(m, end) => {
                if end <= pos || end > b.len() {
                    ParsedElems::Fail
                } else {
                    match spec_parse_elems(b, end, count - 1) {
                        ParsedElems::Found(ms, end2) => ParsedElems::Found(seq![m] + ms, end2),
                        ParsedElems::Partial => ParsedElems::Partial,
                        ParsedElems::Fail => ParsedElems::Fail,
                    }
                }
            },
            Parsed::Partial => ParsedElems::Partial,
            Parsed::Fail => ParsedElems::Fail,
        }
    }
}

/// The canonical decimal digits of a non-negative integer.
pub open spec fn dec_digits(n: nat) -> Seq<u8>
    decreases n,
{
    if n < 10 {
        seq![(48 + n) as u8]
    } else {
        dec_digits(n / 10).push((48 + n % 10) as u8)
    }
}

/// The canonical decimal digits of a signed integer.
pub open spec fn int_digits(v: int) -> Seq<u8> {
    if v < 0 {
        seq![45u8] + dec_digits((-v) as nat)
    } else {
        dec_digits(v as nat)
    }
}

/// The one wire representation of a frame model.
pub open spec fn encode_spec(m: FrameModel) -> Seq<u8>
    decreases m, 0int,
{
    match m {
        FrameModel::Simple(cs) => seq![43u8] + encode_utf8(cs) + seq![CR, LF],
        FrameModel::Error(cs) => seq![45u8] + encode_utf8(cs) + seq![CR, LF],
        FrameModel::Integer(v) => seq![58u8] + int_digits(v) + seq![CR, LF],
        FrameModel::Bulk(d) => seq![36u8] + dec_digits(d.len()) + seq![CR, LF] + d + seq![CR, LF],
        FrameModel::Array(ms) => seq![42u8] + dec_digits(ms.len()) + seq![CR, LF] + encode_list(ms),
        FrameModel::Null => seq![36u8, 45u8, 49u8, CR, LF],
    }
}

/// The concatenated wire representations of a run of frame models.
pub open spec fn encode_list(ms: Seq<FrameModel>) -> Seq<u8>
    decreases ms, 1int,
{
    if ms.len() == 0 {
        Seq::empty()
    } else {
        encode_spec(ms[0]) + encode_list(ms.drop_first())
    }
}

/// No CRLF pair hides inside the byte sequence, so a terminator scan cannot
/// stop early inside it.
pub open spec fn line_ok(s: Seq<u8>) -> bool {
    forall|i: int| 0 <= i && i + 1 < s.len() ==> !(#[trigger] s[i] == CR && s[i + 1] == LF)
}

/// Reads the marker byte at the cursor and advances past it.
/// With no byte remaining the attempt is incomplete and the cursor is left
/// where it was.
pub fn get_u8(buf: &[u8], pos: &mut usize) -> (r: Result<u8, FrameError>)
    requires
        *old(pos) <= buf@.len(),
    ensures
        *old(pos) < buf@.len() ==> r == Ok::<u8, FrameError>(buf@[*old(pos) as int])
            && *final(pos) == *old(pos) + 1,
        *old(pos) == buf@.len() ==> r == Err::<u8, FrameError>(FrameError::Incomplete)
            && *final(pos) == *old(pos),
{
    if *pos < buf.len() {
        let c = buf[*pos];
        *pos = *pos + 1;
        Ok(c)
    } else {
        Err(FrameError::Incomplete)
    }
}

/// Scans from the cursor for the first CRLF pair. Found: returns a copy of
/// the bytes strictly before it and advances the cursor past the pair.
/// Not found: the attempt is incomplete and the cursor is left untouched.
#[verifier::loop_isolation(false)]
pub fn get_line(buf: &[u8], pos: &mut usize) -> (r: Result<Vec<u8>, FrameError>)
    requires
        *old(pos) <= buf@.len(),
    ensures
        ({ let e = find_crlf(buf@, *old(pos) as int);
            match r {
                Ok(line) => *old(pos) <= e && e + 2 <= buf@.len()
                    && line@ == buf@.subrange(*old(pos) as int, e)
                    && *final(pos) == e + 2,
                Err(err) => e == -1 && err == FrameError::Incomplete && *final(pos) == *old(pos),
            }
        }),
{
    let start = *pos;
    proof {
        lemma_find_crlf(buf@, start as int);
    }
    let mut i = start;
    while i < buf.len() && i + 1 < buf.len()
        invariant
            start <= i <= buf@.len(),
            *pos == start,
            start <= buf@.len(),
            forall|j: int| start <= j < i ==> !crlf_at(buf@, j),
        decreases buf@.len() - i,
    {
        if buf[i] == CR && buf[i + 1] == LF {
            proof {
                assert(crlf_at(buf@, i as int));
                assert(find_crlf(buf@, start as int) == i as int) by {
                    lemma_find_crlf(buf@, start as int);
                }
            }
            let line = slice_to_vec(slice_subrange(buf, start, i));
            *pos = i + 2;
            return Ok(line);
        }
        i = i + 1;
    }
    proof {
        assert(find_crlf(buf@, start as int) == -1) by {
            lemma_find_crlf(buf@, start as int);
            assert(forall|j: int| start <= j && j + 1 < buf@.len() ==> !crlf_at(buf@, j));
        }
    }
    Err(FrameError::Incomplete)
}

/// The value of a digit string is never negative.
proof fn lemma_digits_val_nonneg(s: Seq<u8>)
    requires
        all_digits(s),
    ensures
        digits_val(s) >= 0,
    decreases s.len(),
{
    if s.len() > 0 {
        lemma_digits_val_nonneg(s.drop_last());
    }
}

/// Relies on `String::from_utf8`: it succeeds exactly on valid UTF-8 input
/// and returns the text those bytes encode.
#[verifier::external_body]
fn bytes_to_string(v: Vec<u8>) -> (r: Option<String>)
    ensures
        r is Some <==> valid_utf8(v@),
        r matches Some(s) ==> s@ == decode_utf8(v@),
{
    String::from_utf8(v).ok()
}

/// Parses a CRLF-stripped line as a signed 64-bit integer: an optional
/// minus sign, then decimal digits. Rejects anything else, and any value
/// outside the 64-bit range.
pub fn parse_i64(line: &[u8]) -> (r: Option<i64>)
    ensures
        r is Some <==> valid_i64_line(line@),
        r matches Some(v) ==> v as int == int_line_val(line@),
{
    let n = line.len();
    let neg = n > 0 && line[0] == 45;
    let ds: usize = if neg { 1 } else { 0 };
    if n == ds {
        // no digits at all
        assert(!valid_int_line(line@));
        return None;
    }
    let mag_limit: u64 = 9223372036854775808;
    let mut acc: u64 = 0;
    let mut over = false;
    let mut j = ds;
    while j < n
        invariant
            ds <= j <= n,
            n == line@.len(),
            ds == 1 ==> line@[0] == 45,
            ds == 1 <==> (n > 0 && line@[0] == 45),
            mag_limit == 0x8000_0000_0000_0000,
            forall|k: int| ds <= k < j ==> 48 <= #[trigger] line@[k] <= 57,
            !over ==> acc == digits_val(line@.subrange(ds as int, j as int)) && acc <= mag_limit,
            over ==> digits_val(line@.subrange(ds as int, j as int)) > mag_limit,
        decreases n - j,
    {
        let c = line[j];
        if c < 48 || c > 57 {
            assert(!valid_int_line(line@)) by {
                if ds == 1 {
                    assert(line@.skip(1)[j - 1] == line@[j as int]);
                }
            }
            return None;
        }
        let d = (c - 48) as u64;
        proof {
            let whole = line@.subrange(ds as int, (j + 1) as int);
            assert(whole.drop_last() =~= line@.subrange(ds as int, j as int));
            assert(whole.last() == line@[j as int]);
            lemma_digits_val_nonneg(line@.subrange(ds as int, j as int));
        }
        if over {
            proof {
                let prev = digits_val(line@.subrange(ds as int, j as int));
                assert(prev * 10 + d > mag_limit) by (nonlinear_arith)
                    requires prev > mag_limit, d >= 0, mag_limit > 0;
            }
        } else if acc > (mag_limit - d) / 10 {
            over = true;
            proof {
                assert(acc * 10 + d > mag_limit) by (nonlinear_arith)
                    requires acc > (mag_limit - d) / 10, 0 <= d <= 9, mag_limit == 0x8000_0000_0000_0000u64;
            }
        } else {
            proof {
                assert(acc * 10 + d <= mag_limit) by (nonlinear_arith)
                    requires acc <= (mag_limit - d) / 10, 0 <= d <= 9, mag_limit == 0x8000_0000_0000_0000u64;
            }
            acc = acc * 10 + d;
        }
        j = j + 1;
    }
    proof {
        if ds == 1 {
            assert(line@.subrange(1, n as int) =~= line@.skip(1));
        } else {
            assert(line@.subrange(0, n as int) =~= line@);
        }
        assert(valid_int_line(line@));
    }
    if over {
        assert(!i64_in_range(int_line_val(line@)));
        return None;
    }
    if neg {
        if acc == mag_limit {
            assert(int_line_val(line@) == -0x8000_0000_0000_0000);
            Some(i64::MIN)
        } else {
            Some(-(acc as i64))
        }
    } else {
        if acc >= mag_limit {
            assert(!i64_in_range(int_line_val(line@)));
            None
        } else {
            Some(acc as i64)
        }
    }
}

/// Appending a frame to a list appends its model to the list's models.
pub proof fn lemma_models_of_push(v: Seq<Frame>, f: Frame)
    ensures
        models_of(v.push(f)) == models_of(v) + seq![f@],
    decreases v.len(),
{
    if v.len() == 0 {
        assert(v.push(f).drop_first() =~= Seq::<Frame>::empty());
        assert(v.push(f)[0] == f);
        assert(models_of(Seq::<Frame>::empty()) == Seq::<FrameModel>::empty());
        assert(models_of(v.push(f)) == seq![f@] + Seq::<FrameModel>::empty());
        assert(models_of(v) == Seq::<FrameModel>::empty());
        assert(seq![f@] + Seq::<FrameModel>::empty() =~= Seq::<FrameModel>::empty() + seq![f@]);
    } else {
        lemma_models_of_push(v.drop_first(), f);
        assert(v.push(f).drop_first() =~= v.drop_first().push(f));
        assert(v.push(f)[0] == v[0]);
        assert(models_of(v.push(f)) == seq![v[0]@] + (models_of(v.drop_first()) + seq![f@]));
        assert(seq![v[0]@] + (models_of(v.drop_first()) + seq![f@])
            =~= (seq![v[0]@] + models_of(v.drop_first())) + seq![f@]);
    }
}

impl Frame {
    /// Decodes one frame from `buf` starting at the cursor and advances the
    /// cursor past it. An incomplete or malformed buffer leaves the cursor
    /// where it was, so the caller may retry the identical attempt once more
    /// bytes have been appended. The result is exactly what the grammar
    /// (`spec_parse`) says stands at that position.
    #[verifier::loop_isolation(false)]
    pub fn parse(buf: &[u8], pos: &mut usize) -> (r: Result<Frame, FrameError>)
        requires
            *old(pos) <= buf@.len(),
        ensures
            ({ let res = spec_parse(buf@, *old(pos) as int);
                match r {
                    Ok(f) => res == Parsed::Found(f@, *final(pos) as int)
                        && *old(pos) < *final(pos) <= buf@.len(),
                    Err(e) => *final(pos) == *old(pos)
                        && (e == FrameError::Incomplete ==> res is Partial)
                        && (e == FrameError::Protocol ==> res is Fail),
                }
            }),
        decreases buf@.len() - *old(pos),
    {
        let start = *pos;
        let mut p = start;
        let marker = match get_u8(buf, &mut p) {
            Ok(c) => c,
            Err(e) => { return Err(e); },
        };
        if marker == 43 || marker == 45 {
            let line = match get_line(buf, &mut p) {
                Ok(l) => l,
                Err(e) => { return Err(e); },
            };
            let ghost lbytes = line@;
            match bytes_to_string(line) {
                Some(s) => {
                    *pos = p;
                    if marker == 43 {
                        Ok(Frame::SimpleString(s))
                    } else {
                        Ok(Frame::Error(s))
                    }
                },
                None => Err(FrameError::Protocol),
            }
        } else if marker == 58 {
            let line = match get_line(buf, &mut p) {
                Ok(l) => l,
                Err(e) => { return Err(e); },
            };
            match parse_i64(line.as_slice()) {
                Some(v) => {
                    *pos = p;
                    Ok(Frame::Integer(v))
                },
                None => Err(FrameError::Protocol),
            }
        } else if marker == 36 {
            let line = match get_line(buf, &mut p) {
                Ok(l) => l,
                Err(e) => { return Err(e); },
            };
            let n = match parse_i64(line.as_slice()) {
                Some(v) => v,
                None => { return Err(FrameError::Protocol); },
            };
            if n < 0 {
                *pos = p;
                return Ok(Frame::Null);
            }
            let remaining = buf.len() - p;
            if (remaining as u64) < (n as u64) + 2 {
                return Err(FrameError::Incomplete);
            }
            let nn = n as usize;
            let data = slice_to_vec(slice_subrange(buf, p, p + nn));
            if buf[p + nn] == CR && buf[p + nn + 1] == LF {
                *pos = p + nn + 2;
                Ok(Frame::BulkString(data))
            } else {
                Err(FrameError::Protocol)
            }
        } else if marker == 42 {
            let line = match get_line(buf, &mut p) {
                Ok(l) => l,
                Err(e) => { return Err(e); },
            };
            let n = match parse_i64(line.as_slice()) {
                Some(v) => v,
                None => { return Err(FrameError::Protocol); },
            };
            if n < 0 {
                *pos = p;
                return Ok(Frame::Null);
            }
            let count = n as u64;
            let ghost p0 = p as int;
            let mut items: Vec<Frame> = Vec::new();
            let mut i: u64 = 0;
            proof {
                assert(elems_prepend(models_of(items@), spec_parse_elems(buf@, p as int, (count - i) as int))
                    =~= spec_parse_elems(buf@, p0, count as int));
            }
            while i < count
                invariant
                    0 <= i <= count,
                    start < p0 <= p as int,
                    p <= buf@.len(),
                    items@.len() == i,
                    spec_parse_elems(buf@, p0, count as int)
                        == elems_prepend(models_of(items@), spec_parse_elems(buf@, p as int, (count - i) as int)),
                decreases count - i,
            {
                let ghost p_before = p as int;
                let ghost items_before = items@;
                match Frame::parse(buf, &mut p) {
                    Ok(f) => {
                        proof {
                            lemma_models_of_push(items_before, f);
                            assert(spec_parse_elems(buf@, p_before, (count - i) as int)
                                == elems_prepend(seq![f@], spec_parse_elems(buf@, p as int, (count - i - 1) as int)));
                            assert(elems_prepend(models_of(items_before),
                                    elems_prepend(seq![f@], spec_parse_elems(buf@, p as int, (count - i - 1) as int)))
                                =~= elems_prepend(models_of(items_before.push(f)),
                                    spec_parse_elems(buf@, p as int, (count - i - 1) as int)));
                        }
                        items.push(f);
                        i = i + 1;
                    },
                    Err(e) => { return Err(e); },
                }
            }
            proof {
                assert(spec_parse_elems(buf@, p as int, 0) == ParsedElems::Found(Seq::<FrameModel>::empty(), p as int));
                assert(models_of(items@) + Seq::<FrameModel>::empty() =~= models_of(items@));
            }
            *pos = p;
            Ok(Frame::Array(items))
        } else {
            Err(FrameError::Protocol)
        }
    }
}

/// A frame list and its model list have the same length.
pub proof fn lemma_models_of_len(v: Seq<Frame>)
    ensures
        models_of(v).len() == v.len(),
    decreases v.len(),
{
    if v.len() > 0 {
        lemma_models_of_len(v.drop_first());
    }
}

/// The model list is the element-wise model of the frame list.
pub proof fn lemma_models_of_index(v: Seq<Frame>, i: int)
    requires
        0 <= i < v.len(),
    ensures
        models_of(v).len() == v.len(),
        models_of(v)[i] == v[i]@,
    decreases v.len(),
{
    lemma_models_of_len(v);
    if i > 0 {
        lemma_models_of_index(v.drop_first(), i - 1);
    }
}

/// Extending the encoded prefix of a model list by one element appends
/// that element's encoding.
pub proof fn lemma_encode_list_take(ms: Seq<FrameModel>, i: int)
    requires
        0 <= i < ms.len(),
    ensures
        encode_list(ms.take(i + 1)) == encode_list(ms.take(i)) + encode_spec(ms[i]),
    decreases i,
{
    let df = ms.drop_first();
    if i == 0 {
        assert(ms.take(1)[0] == ms[0]);
        assert(ms.take(1).drop_first() =~= Seq::<FrameModel>::empty());
        assert(ms.take(0) =~= Seq::<FrameModel>::empty());
        assert(encode_list(Seq::<FrameModel>::empty()) == Seq::<u8>::empty());
        assert(encode_list(ms.take(1)) == encode_spec(ms[0]) + Seq::<u8>::empty());
        assert(encode_spec(ms[0]) + Seq::<u8>::empty() =~= Seq::<u8>::empty() + encode_spec(ms[0]));
    } else {
        lemma_encode_list_take(df, i - 1);
        assert(ms.take(i + 1)[0] == ms[0]);
        assert(ms.take(i + 1).drop_first() =~= df.take(i));
        assert(ms.take(i).drop_first() =~= df.take(i - 1));
        assert(ms.take(i)[0] == ms[0]);
        assert(df[i - 1] == ms[i]);
        assert(encode_list(ms.take(i + 1)) == encode_spec(ms[0]) + (encode_list(df.take(i - 1)) + encode_spec(ms[i])));
        assert(encode_spec(ms[0]) + (encode_list(df.take(i - 1)) + encode_spec(ms[i]))
            =~= (encode_spec(ms[0]) + encode_list(df.take(i - 1))) + encode_spec(ms[i]));
    }
}

/// Appends a copy of the given bytes.
#[verifier::loop_isolation(false)]
pub(crate) fn push_bytes(out: &mut Vec<u8>, b: &[u8])
    ensures
        final(out)@ == old(out)@ + b@,
{
    let mut i: usize = 0;
    while i < b.len()
        invariant
            0 <= i <= b@.len(),
            out@ == old(out)@ + b@.take(i as int),
        decreases b@.len() - i,
    {
        out.push(b[i]);
        proof {
            assert(b@.take(i + 1) =~= b@.take(i as int).push(b@[i as int]));
        }
        i = i + 1;
    }
    proof {
        assert(b@.take(b@.len() as int) =~= b@);
    }
}

/// Appends the canonical decimal digits of `n`.
fn push_decimal(out: &mut Vec<u8>, n: u64)
    ensures
        final(out)@ == old(out)@ + dec_digits(n as nat),
    decreases n,
{
    if n < 10 {
        out.push((48 + n) as u8);
        assert(final(out)@ =~= old(out)@ + dec_digits(n as nat));
    } else {
        push_decimal(out, n / 10);
        out.push((48 + n % 10) as u8);
        assert(final(out)@ =~= old(out)@ + dec_digits(n as nat));
    }
}

/// Appends the canonical decimal digits of a signed value, minus sign first.
fn push_int(out: &mut Vec<u8>, v: i64)
    ensures
        final(out)@ == old(out)@ + int_digits(v as int),
{
    if v < 0 {
        out.push(45);
        let m = (-(v as i128)) as u64;
        proof {
            assert(m as int == -(v as int));
        }
        push_decimal(out, m);
        assert(final(out)@ =~= old(out)@ + int_digits(v as int));
    } else {
        push_decimal(out, v as u64);
    }
}

impl Frame {
    /// Appends the one wire representation of this frame to `out`.
    #[verifier::loop_isolation(false)]
    pub fn encode_into(&self, out: &mut Vec<u8>)
        ensures
            final(out)@ == old(out)@ + encode_spec(self@),
        decreases *self,
    {
        match self {
            Frame::SimpleString(s) => {
                out.push(43);
                push_bytes(out, s.as_str().as_bytes());
                out.push(CR);
                out.push(LF);
                assert(final(out)@ =~= old(out)@ + encode_spec(self@));
            },
            Frame::Error(s) => {
                out.push(45);
                push_bytes(out, s.as_str().as_bytes());
                out.push(CR);
                out.push(LF);
                assert(final(out)@ =~= old(out)@ + encode_spec(self@));
            },
            Frame::Integer(n) => {
                out.push(58);
                push_int(out, *n);
                out.push(CR);
                out.push(LF);
                assert(final(out)@ =~= old(out)@ + encode_spec(self@));
            },
            Frame::BulkString(d) => {
                out.push(36);
                push_decimal(out, d.len() as u64);
                out.push(CR);
                out.push(LF);
                push_bytes(out, d.as_slice());
                out.push(CR);
                out.push(LF);
                assert(final(out)@ =~= old(out)@ + encode_spec(self@));
            },
            Frame::Array(v) => {
                out.push(42);
                proof {
                    lemma_models_of_len(v@);
                }
                push_decimal(out, v.len() as u64);
                out.push(CR);
                out.push(LF);
                let ghost ms = models_of(v@);
                let ghost base = out@;
                let mut i: usize = 0;
                proof {
                    assert(ms.take(0) =~= Seq::<FrameModel>::empty());
                    assert(base + Seq::<u8>::empty() =~= base);
                }
                while i < v.len()
                    invariant
                        0 <= i <= v@.len(),
                        out@ == base + encode_list(ms.take(i as int)),
                    decreases v@.len() - i,
                {
                    let item = &v[i];
                    item.encode_into(out);
                    proof {
                        lemma_models_of_index(v@, i as int);
                        lemma_encode_list_take(ms, i as int);
                        assert(out@ =~= base + encode_list(ms.take(i + 1)));
                    }
                    i = i + 1;
                }
                proof {
                    assert(ms.take(v@.len() as int) =~= ms);
                }
                assert(final(out)@ =~= old(out)@ + encode_spec(self@));
            },
            Frame::Null => {
                out.push(36);
                out.push(45);
                out.push(49);
                out.push(CR);
                out.push(LF);
                assert(final(out)@ =~= old(out)@ + encode_spec(self@));
            },
        }
    }

    /// Encodes this frame as its one wire representation.
    pub fn encode(&self) -> (r: Vec<u8>)
        ensures
            r@ == encode_spec(self@),
    {
        let mut out: Vec<u8> = Vec::new();
        self.encode_into(&mut out);
        proof {
            assert(Seq::<u8>::empty() + encode_spec(self@) =~= encode_spec(self@));
        }
        out
    }
}

/// A constructible frame model: one whose encoding decodes back to itself.
/// Text must not contain an embedded CRLF once encoded, integers must fit
/// 64 bits, and every nested frame must itself be well formed.
pub open spec fn wf(m: FrameModel) -> bool
    decreases m,
{
    match m {
        FrameModel::Simple(cs) => line_ok(encode_utf8(cs)),
        FrameModel::Error(cs) => line_ok(encode_utf8(cs)),
        FrameModel::Integer(v) => i64_in_range(v),
        FrameModel::Bulk(d) => i64_in_range(d.len() as int),
        FrameModel::Array(ms) => i64_in_range(ms.len() as int)
            && forall|i: int| 0 <= i < ms.len() ==> wf(#[trigger] ms[i]),
        FrameModel::Null => true,
    }
}

} // verus!
