//! The codec's laws: encoding any constructible frame and decoding it back
//! yields the same frame and consumes exactly the encoded bytes; and a
//! strict prefix of an encoding always parses as incomplete, never as a
//! frame or an error, so a frame split across deliveries decodes the same
//! as one delivered whole.

use vstd::prelude::*;
use vstd::utf8::{encode_utf8, valid_utf8, decode_utf8, encode_utf8_valid_utf8, encode_utf8_decode_utf8};
use crate::frame::{
    FrameModel, Parsed, ParsedElems, encode_spec, encode_list, spec_parse, spec_parse_elems,
    wf, find_crlf, lemma_find_crlf, crlf_at, line_ok, all_digits, digits_val, dec_digits,
    int_digits, valid_int_line, int_line_val, valid_i64_line, CR, LF,
};

verus! {

/// The bytes of `s` stand in `b` starting at `pos`.
spec fn bytes_at(b: Seq<u8>, pos: int, s: Seq<u8>) -> bool {
    forall|k: int| 0 <= k < s.len() ==> b[pos + k] == #[trigger] s[k]
}

/// A subrange equality gives `bytes_at`.
proof fn lemma_bytes_at(b: Seq<u8>, pos: int, s: Seq<u8>)
    requires
        0 <= pos,
        pos + s.len() <= b.len(),
        b.subrange(pos, pos + s.len() as int) == s,
    ensures
        bytes_at(b, pos, s),
{
    assert forall|k: int| 0 <= k < s.len() implies b[pos + k] == #[trigger] s[k] by {
        assert(s[k] == b.subrange(pos, pos + s.len() as int)[k]);
    }
}

/// `bytes_at` gives back the subrange equality.
proof fn lemma_bytes_at_subrange(b: Seq<u8>, pos: int, s: Seq<u8>)
    requires
        0 <= pos,
        pos + s.len() <= b.len(),
        bytes_at(b, pos, s),
    ensures
        b.subrange(pos, pos + s.len() as int) == s,
{
    assert(b.subrange(pos, pos + s.len() as int) =~= s);
}

/// Bytes standing at a position decompose around a concatenation.
proof fn lemma_bytes_at_concat(b: Seq<u8>, pos: int, x: Seq<u8>, y: Seq<u8>)
    requires
        bytes_at(b, pos, x + y),
    ensures
        bytes_at(b, pos, x),
        bytes_at(b, pos + x.len(), y),
{
    assert forall|k: int| 0 <= k < x.len() implies b[pos + k] == #[trigger] x[k] by {
        assert((x + y)[k] == x[k]);
    }
    assert forall|k: int| 0 <= k < y.len() implies b[pos + x.len() + k] == #[trigger] y[k] by {
        assert((x + y)[x.len() + k] == y[k]);
    }
}

/// The canonical digits of `n` are digits, spell `n`, and are never empty.
proof fn lemma_dec_digits(n: nat)
    ensures
        all_digits(dec_digits(n)),
        digits_val(dec_digits(n)) == n,
        dec_digits(n).len() >= 1,
    decreases n,
{
    if n < 10 {
        let s = dec_digits(n);
        assert(s.drop_last() =~= Seq::<u8>::empty());
        assert(digits_val(Seq::<u8>::empty()) == 0);
        assert(s.last() == (48 + n) as u8);
        assert((48 + n) as u8 == 48 + n);
    } else {
        lemma_dec_digits(n / 10);
        let s = dec_digits(n);
        assert(s.drop_last() =~= dec_digits(n / 10));
        assert(all_digits(s)) by {
            assert forall|i: int| 0 <= i < s.len() implies 48 <= #[trigger] s[i] <= 57 by {
                if i < s.len() - 1 {
                    assert(s[i] == dec_digits(n / 10)[i]);
                }
            }
        }
    }
}

/// A digit line never hides a CRLF pair.
proof fn lemma_all_digits_line_ok(s: Seq<u8>)
    requires
        all_digits(s),
    ensures
        line_ok(s),
{
    assert forall|i: int| 0 <= i && i + 1 < s.len() implies !(#[trigger] s[i] == CR && s[i + 1] == LF) by {
        assert(48 <= s[i]);
    }
}

/// The canonical digits of a signed value form a well-formed integer line
/// spelling that value, with no CRLF pair inside.
proof fn lemma_int_digits(v: int)
    ensures
        valid_int_line(int_digits(v)),
        int_line_val(int_digits(v)) == v,
        line_ok(int_digits(v)),
        int_digits(v).len() >= 1,
{
    let s = int_digits(v);
    if v < 0 {
        lemma_dec_digits((-v) as nat);
        let d = dec_digits((-v) as nat);
        assert(s == seq![45u8] + d);
        assert(s[0] == 45);
        assert(s.skip(1) =~= d);
        assert(forall|i: int| 0 <= i < s.len() ==> #[trigger] s[i] == 45 || 48 <= s[i] <= 57) by {
            assert forall|i: int| 0 <= i < s.len() implies #[trigger] s[i] == 45 || 48 <= s[i] <= 57 by {
                if i > 0 {
                    assert(s[i] == d[i - 1]);
                }
            }
        }
        assert forall|i: int| 0 <= i && i + 1 < s.len() implies !(#[trigger] s[i] == CR && s[i + 1] == LF) by {
            assert(s[i] == 45 || 48 <= s[i] <= 57);
        }
    } else {
        lemma_dec_digits(v as nat);
        assert(s[0] != 45);
        lemma_all_digits_line_ok(s);
    }
}

/// No frame encodes to the empty byte sequence.
proof fn lemma_encode_nonempty(m: FrameModel)
    ensures
        encode_spec(m).len() >= 1,
{
}

/// A CRLF-terminated line standing at `pos + 1` is found by the terminator
/// scan exactly at its end, and reads back as itself.
proof fn lemma_parse_line_at(b: Seq<u8>, pos: int, pl: Seq<u8>)
    requires
        0 <= pos,
        line_ok(pl),
        pos + 1 + pl.len() + 2 <= b.len(),
        bytes_at(b, pos + 1, pl),
        b[pos + 1 + pl.len()] == CR,
        b[pos + 2 + pl.len()] == LF,
    ensures
        find_crlf(b, pos + 1) == pos + 1 + pl.len(),
        b.subrange(pos + 1, pos + 1 + pl.len() as int) == pl,
{
    let t = pos + 1 + pl.len();
    assert(crlf_at(b, t));
    assert forall|j: int| pos + 1 <= j < t implies !crlf_at(b, j) by {
        if j < t - 1 {
            assert(b[j] == pl[j - pos - 1]);
            assert(b[j + 1] == pl[j - pos]);
        } else {
            assert(b[j + 1] == CR);
        }
    }
    lemma_find_crlf(b, pos + 1);
    let r = find_crlf(b, pos + 1);
    if r == -1 {
        assert(!crlf_at(b, t));
        assert(false);
    }
    if r < t {
        assert(!crlf_at(b, r));
        assert(false);
    }
    if r > t {
        assert(!crlf_at(b, t));
        assert(false);
    }
    lemma_bytes_at_subrange(b, pos + 1, pl);
}

/// Decoding at the start of an embedded encoding of a well-formed frame
/// finds exactly that frame, whatever stands before or after it.
proof fn lemma_parse_at(m: FrameModel, b: Seq<u8>, pos: int)
    requires
        wf(m),
        0 <= pos,
        pos + encode_spec(m).len() <= b.len(),
        bytes_at(b, pos, encode_spec(m)),
    ensures
        spec_parse(b, pos) == Parsed::Found(m, pos + encode_spec(m).len()),
    decreases m,
{
    let enc = encode_spec(m);
    match m {
        FrameModel::Simple(cs) => {
            let pl = encode_utf8(cs);
            assert(enc == seq![43u8] + pl + seq![CR, LF]);
            lemma_bytes_at_concat(b, pos, seq![43u8] + pl, seq![CR, LF]);
            lemma_bytes_at_concat(b, pos, seq![43u8], pl);
            assert(b[pos] == 43) by { assert((seq![43u8])[0] == 43); }
            assert(b[pos + 1 + pl.len()] == CR) by { assert((seq![CR, LF])[0] == CR); }
            assert(b[pos + 2 + pl.len()] == LF) by { assert((seq![CR, LF])[1] == LF); }
            lemma_parse_line_at(b, pos, pl);
            encode_utf8_valid_utf8(cs);
            encode_utf8_decode_utf8(cs);
        },
        FrameModel::Error(cs) => {
            let pl = encode_utf8(cs);
            assert(enc == seq![45u8] + pl + seq![CR, LF]);
            lemma_bytes_at_concat(b, pos, seq![45u8] + pl, seq![CR, LF]);
            lemma_bytes_at_concat(b, pos, seq![45u8], pl);
            assert(b[pos] == 45) by { assert((seq![45u8])[0] == 45); }
            assert(b[pos + 1 + pl.len()] == CR) by { assert((seq![CR, LF])[0] == CR); }
            assert(b[pos + 2 + pl.len()] == LF) by { assert((seq![CR, LF])[1] == LF); }
            lemma_parse_line_at(b, pos, pl);
            encode_utf8_valid_utf8(cs);
            encode_utf8_decode_utf8(cs);
        },
        FrameModel::Integer(v) => {
            let pl = int_digits(v);
            lemma_int_digits(v);
            assert(enc == seq![58u8] + pl + seq![CR, LF]);
            lemma_bytes_at_concat(b, pos, seq![58u8] + pl, seq![CR, LF]);
            lemma_bytes_at_concat(b, pos, seq![58u8], pl);
            assert(b[pos] == 58) by { assert((seq![58u8])[0] == 58); }
            assert(b[pos + 1 + pl.len()] == CR) by { assert((seq![CR, LF])[0] == CR); }
            assert(b[pos + 2 + pl.len()] == LF) by { assert((seq![CR, LF])[1] == LF); }
            lemma_parse_line_at(b, pos, pl);
        },
        FrameModel::Bulk(d) => {
            let dd = dec_digits(d.len());
            lemma_dec_digits(d.len());
            lemma_all_digits_line_ok(dd);
            assert(enc == seq![36u8] + dd + seq![CR, LF] + d + seq![CR, LF]);
            lemma_bytes_at_concat(b, pos, seq![36u8] + dd + seq![CR, LF] + d, seq![CR, LF]);
            lemma_bytes_at_concat(b, pos, seq![36u8] + dd + seq![CR, LF], d);
            lemma_bytes_at_concat(b, pos, seq![36u8] + dd, seq![CR, LF]);
            lemma_bytes_at_concat(b, pos, seq![36u8], dd);
            assert(b[pos] == 36) by { assert((seq![36u8])[0] == 36); }
            assert(b[pos + 1 + dd.len()] == CR) by { assert((seq![CR, LF])[0] == CR); }
            assert(b[pos + 2 + dd.len()] == LF) by { assert((seq![CR, LF])[1] == LF); }
            lemma_parse_line_at(b, pos, dd);
            assert(valid_int_line(dd)) by { assert(48 <= dd[0]); }
            let p1 = pos + 3 + dd.len();
            assert(b[p1 + d.len()] == CR) by { assert((seq![CR, LF])[0] == CR); }
            assert(b[p1 + d.len() + 1] == LF) by { assert((seq![CR, LF])[1] == LF); }
            lemma_bytes_at_subrange(b, p1, d);
        },
        FrameModel::Array(ms) => {
            let dd = dec_digits(ms.len());
            lemma_dec_digits(ms.len());
            lemma_all_digits_line_ok(dd);
            assert(enc == seq![42u8] + dd + seq![CR, LF] + encode_list(ms));
            lemma_bytes_at_concat(b, pos, seq![42u8] + dd + seq![CR, LF], encode_list(ms));
            lemma_bytes_at_concat(b, pos, seq![42u8] + dd, seq![CR, LF]);
            lemma_bytes_at_concat(b, pos, seq![42u8], dd);
            assert(b[pos] == 42) by { assert((seq![42u8])[0] == 42); }
            assert(b[pos + 1 + dd.len()] == CR) by { assert((seq![CR, LF])[0] == CR); }
            assert(b[pos + 2 + dd.len()] == LF) by { assert((seq![CR, LF])[1] == LF); }
            lemma_parse_line_at(b, pos, dd);
            assert(valid_int_line(dd)) by { assert(48 <= dd[0]); }
            let p1 = pos + 3 + dd.len();
            lemma_parse_at_list(ms, b, p1);
        },
        FrameModel::Null => {
            let pl = seq![45u8, 49u8];
            assert(enc == seq![36u8] + pl + seq![CR, LF]) by {
                assert(enc =~= seq![36u8] + pl + seq![CR, LF]);
            }
            lemma_bytes_at_concat(b, pos, seq![36u8] + pl, seq![CR, LF]);
            lemma_bytes_at_concat(b, pos, seq![36u8], pl);
            assert(b[pos] == 36) by { assert((seq![36u8])[0] == 36); }
            assert(b[pos + 1 + pl.len()] == CR) by { assert((seq![CR, LF])[0] == CR); }
            assert(b[pos + 2 + pl.len()] == LF) by { assert((seq![CR, LF])[1] == LF); }
            assert(line_ok(pl)) by {
                assert(pl[0] == 45 && pl[1] == 49);
            }
            lemma_parse_line_at(b, pos, pl);
            let line = b.subrange(pos + 1, pos + 3);
            assert(line[0] == 45 && line[1] == 49);
            assert(line.skip(1) =~= seq![49u8]);
            assert(digits_val(seq![49u8]) == 1) by {
                assert(seq![49u8].drop_last() =~= Seq::<u8>::empty());
                assert(digits_val(Seq::<u8>::empty()) == 0);
                assert(seq![49u8].last() == 49);
            }
            assert(valid_i64_line(line));
            assert(int_line_val(line) == -1);
        },
    }
}

/// Decoding a run of embedded encodings of well-formed frames finds exactly
/// those frames, in order.
proof fn lemma_parse_at_list(ms: Seq<FrameModel>, b: Seq<u8>, pos: int)
    requires
        forall|i: int| 0 <= i < ms.len() ==> wf(#[trigger] ms[i]),
        0 <= pos,
        pos + encode_list(ms).len() <= b.len(),
        bytes_at(b, pos, encode_list(ms)),
    ensures
        spec_parse_elems(b, pos, ms.len() as int) == ParsedElems::Found(ms, pos + encode_list(ms).len()),
    decreases ms,
{
    if ms.len() == 0 {
        assert(spec_parse_elems(b, pos, 0) == ParsedElems::Found(Seq::<FrameModel>::empty(), pos));
        assert(ms =~= Seq::<FrameModel>::empty());
    } else {
        let m0 = ms[0];
        let rest = ms.drop_first();
        let e0 = encode_spec(m0);
        assert(encode_list(ms) == e0 + encode_list(rest));
        lemma_bytes_at_concat(b, pos, e0, encode_list(rest));
        assert(wf(m0));
        lemma_parse_at(m0, b, pos);
        lemma_encode_nonempty(m0);
        let end = pos + e0.len();
        assert forall|i: int| 0 <= i < rest.len() implies wf(#[trigger] rest[i]) by {
            assert(rest[i] == ms[i + 1]);
        }
        lemma_parse_at_list(rest, b, end);
        assert(seq![m0] + rest =~= ms);
    }
}

/// In a buffer that ends inside a line, or just after its `\r`, the
/// terminator scan finds nothing: a lone final `\r` is not a terminator.
proof fn lemma_truncated_line(b: Seq<u8>, pos: int, pl: Seq<u8>)
    requires
        0 <= pos < b.len(),
        line_ok(pl),
        b.len() <= pos + 2 + pl.len(),
        forall|k: int| 0 <= k < pl.len() && pos + 1 + k < b.len() ==> b[pos + 1 + k] == #[trigger] pl[k],
        pos + 1 + pl.len() < b.len() ==> b[pos + 1 + pl.len()] == CR,
    ensures
        find_crlf(b, pos + 1) == -1,
{
    assert forall|j: int| pos + 1 <= j implies !crlf_at(b, j) by {
        if j + 1 < b.len() {
            let idx = j - pos - 1;
            if idx + 1 < pl.len() {
                assert(b[j] == pl[idx]);
                assert(b[j + 1] == pl[idx + 1]);
            } else if idx + 1 == pl.len() {
                assert(b[j + 1] == CR);
            }
        }
    }
    lemma_find_crlf(b, pos + 1);
    let r = find_crlf(b, pos + 1);
    if r >= 0 {
        assert(crlf_at(b, r));
        assert(false);
    }
}

/// In a truncated buffer whose bytes follow a marker-line-CRLF encoding,
/// the terminator scan finds nothing.
proof fn lemma_truncated_line_marked(b: Seq<u8>, pos: int, mk: u8, pl: Seq<u8>, enc2: Seq<u8>)
    requires
        enc2 == seq![mk] + pl + seq![CR, LF],
        0 <= pos < b.len(),
        line_ok(pl),
        b.len() <= pos + 2 + pl.len(),
        forall|k: int| 0 <= k < b.len() - pos ==> b[pos + k] == #[trigger] enc2[k],
    ensures
        find_crlf(b, pos + 1) == -1,
{
    assert forall|k: int| 0 <= k < pl.len() && pos + 1 + k < b.len() implies b[pos + 1 + k] == #[trigger] pl[k] by {
        assert(b[pos + (1 + k)] == enc2[1 + k]);
        assert(enc2[1 + k] == (seq![mk] + pl)[1 + k]);
        assert((seq![mk] + pl)[1 + k] == pl[k]);
    }
    if pos + 1 + pl.len() < b.len() {
        assert(b[pos + (1 + pl.len())] == enc2[1 + pl.len() as int]);
        assert(enc2[1 + pl.len() as int] == (seq![CR, LF])[0]);
    }
    lemma_truncated_line(b, pos, pl);
}

/// A buffer holding a strict prefix of the encoding of a well-formed frame,
/// and nothing after it, always parses as incomplete: never as a frame and
/// never as malformed.
proof fn lemma_prefix_at(m: FrameModel, b: Seq<u8>, pos: int)
    requires
        wf(m),
        0 <= pos <= b.len(),
        b.len() < pos + encode_spec(m).len(),
        bytes_at(b, pos, encode_spec(m).take(b.len() - pos)),
    ensures
        spec_parse(b, pos) is Partial,
    decreases m,
{
    let enc = encode_spec(m);
    let avail = b.len() - pos;
    assert forall|k: int| 0 <= k < avail implies b[pos + k] == enc[k] by {
        assert(b[pos + k] == enc.take(avail)[k]);
    }
    if avail == 0 {
        return;
    }
    match m {
        FrameModel::Simple(cs) => {
            let pl = encode_utf8(cs);
            assert(enc == seq![43u8] + pl + seq![CR, LF]);
            lemma_truncated_line_marked(b, pos, 43u8, pl, enc);
            assert(b[pos] == 43) by {
                assert(b[pos + 0] == enc[0]);
                assert(enc[0] == (seq![43u8] + pl)[0]);
                assert((seq![43u8] + pl)[0] == (seq![43u8])[0]);
            }
        },
        FrameModel::Error(cs) => {
            let pl = encode_utf8(cs);
            assert(enc == seq![45u8] + pl + seq![CR, LF]);
            lemma_truncated_line_marked(b, pos, 45u8, pl, enc);
            assert(b[pos] == 45) by {
                assert(b[pos + 0] == enc[0]);
                assert(enc[0] == (seq![45u8] + pl)[0]);
                assert((seq![45u8] + pl)[0] == (seq![45u8])[0]);
            }
        },
        FrameModel::Integer(v) => {
            let pl = int_digits(v);
            lemma_int_digits(v);
            assert(enc == seq![58u8] + pl + seq![CR, LF]);
            lemma_truncated_line_marked(b, pos, 58u8, pl, enc);
            assert(b[pos] == 58) by {
                assert(b[pos + 0] == enc[0]);
                assert(enc[0] == (seq![58u8] + pl)[0]);
                assert((seq![58u8] + pl)[0] == (seq![58u8])[0]);
            }
        },
        FrameModel::Null => {
            let pl = seq![45u8, 49u8];
            assert(enc == seq![36u8] + pl + seq![CR, LF]) by {
                assert(enc =~= seq![36u8] + pl + seq![CR, LF]);
            }
            assert(line_ok(pl)) by {
                assert(pl[0] == 45 && pl[1] == 49);
            }
            lemma_truncated_line_marked(b, pos, 36u8, pl, enc);
        },
        FrameModel::Bulk(d) => {
            let dd = dec_digits(d.len());
            lemma_dec_digits(d.len());
            lemma_all_digits_line_ok(dd);
            let head = seq![36u8] + dd + seq![CR, LF];
            assert(enc == head + d + seq![CR, LF]);
            if avail < dd.len() + 3 {
                assert forall|k: int| 0 <= k < avail implies b[pos + k] == #[trigger] head[k] by {
                    assert(b[pos + k] == enc[k]);
                    assert(enc[k] == (head + d)[k]);
                    assert((head + d)[k] == head[k]);
                }
                lemma_truncated_line_marked(b, pos, 36u8, dd, head);
            } else {
                assert forall|k: int| 0 <= k < dd.len() implies b[pos + 1 + k] == #[trigger] dd[k] by {
                    assert(b[pos + (1 + k)] == enc[1 + k]);
                    assert(enc[1 + k] == (head + d)[1 + k]);
                    assert((head + d)[1 + k] == head[1 + k]);
                    assert(head[1 + k] == (seq![36u8] + dd)[1 + k]);
                    assert((seq![36u8] + dd)[1 + k] == dd[k]);
                }
                assert(b[pos + (1 + dd.len())] == enc[1 + dd.len() as int]);
                assert(enc[1 + dd.len() as int] == CR) by {
                    assert(enc[1 + dd.len() as int] == (head + d)[1 + dd.len() as int]);
                    assert((head + d)[1 + dd.len() as int] == head[1 + dd.len() as int]);
                    assert(head[1 + dd.len() as int] == (seq![CR, LF])[0]);
                }
                assert(b[pos + (2 + dd.len())] == enc[2 + dd.len() as int]);
                assert(enc[2 + dd.len() as int] == LF) by {
                    assert(enc[2 + dd.len() as int] == (head + d)[2 + dd.len() as int]);
                    assert((head + d)[2 + dd.len() as int] == head[2 + dd.len() as int]);
                    assert(head[2 + dd.len() as int] == (seq![CR, LF])[1]);
                }
                lemma_parse_line_at(b, pos, dd);
                assert(valid_int_line(dd)) by { assert(48 <= dd[0]); }
            }
            assert(b[pos] == 36) by {
                assert(b[pos + 0] == enc[0]);
                assert(enc[0] == head[0]);
                assert(head[0] == (seq![36u8] + dd)[0]);
                assert((seq![36u8] + dd)[0] == (seq![36u8])[0]);
            }
        },
        FrameModel::Array(ms) => {
            let dd = dec_digits(ms.len());
            lemma_dec_digits(ms.len());
            lemma_all_digits_line_ok(dd);
            let head = seq![42u8] + dd + seq![CR, LF];
            let el = encode_list(ms);
            assert(enc == head + el);
            if avail < dd.len() + 3 {
                assert forall|k: int| 0 <= k < avail implies b[pos + k] == #[trigger] head[k] by {
                    assert(b[pos + k] == enc[k]);
                    assert(enc[k] == head[k]);
                }
                lemma_truncated_line_marked(b, pos, 42u8, dd, head);
            } else {
                assert forall|k: int| 0 <= k < dd.len() implies b[pos + 1 + k] == #[trigger] dd[k] by {
                    assert(b[pos + (1 + k)] == enc[1 + k]);
                    assert(enc[1 + k] == head[1 + k]);
                    assert(head[1 + k] == (seq![42u8] + dd)[1 + k]);
                    assert((seq![42u8] + dd)[1 + k] == dd[k]);
                }
                assert(b[pos + (1 + dd.len())] == enc[1 + dd.len() as int]);
                assert(enc[1 + dd.len() as int] == CR) by {
                    assert(enc[1 + dd.len() as int] == head[1 + dd.len() as int]);
                    assert(head[1 + dd.len() as int] == (seq![CR, LF])[0]);
                }
                assert(b[pos + (2 + dd.len())] == enc[2 + dd.len() as int]);
                assert(enc[2 + dd.len() as int] == LF) by {
                    assert(enc[2 + dd.len() as int] == head[2 + dd.len() as int]);
                    assert(head[2 + dd.len() as int] == (seq![CR, LF])[1]);
                }
                lemma_parse_line_at(b, pos, dd);
                assert(valid_int_line(dd)) by { assert(48 <= dd[0]); }
                let p1 = pos + 3 + dd.len();
                assert forall|k: int| 0 <= k < b.len() - p1 implies b[p1 + k] == #[trigger] el.take(b.len() - p1)[k] by {
                    assert(b[pos + (3 + dd.len() + k)] == enc[3 + dd.len() + k as int]);
                    assert(enc[3 + dd.len() + k as int] == el[k]);
                }
                lemma_prefix_at_list(ms, b, p1);
            }
            assert(b[pos] == 42) by {
                assert(b[pos + 0] == enc[0]);
                assert(enc[0] == head[0]);
                assert(head[0] == (seq![42u8] + dd)[0]);
                assert((seq![42u8] + dd)[0] == (seq![42u8])[0]);
            }
        },
    }
}

/// A buffer holding a strict prefix of the encodings of a run of
/// well-formed frames, and nothing after it, parses as incomplete.
proof fn lemma_prefix_at_list(ms: Seq<FrameModel>, b: Seq<u8>, pos: int)
    requires
        forall|i: int| 0 <= i < ms.len() ==> wf(#[trigger] ms[i]),
        0 <= pos <= b.len(),
        b.len() < pos + encode_list(ms).len(),
        bytes_at(b, pos, encode_list(ms).take(b.len() - pos)),
    ensures
        spec_parse_elems(b, pos, ms.len() as int) is Partial,
    decreases ms,
{
    let avail = b.len() - pos;
    let el = encode_list(ms);
    assert(ms.len() > 0);
    let m0 = ms[0];
    let rest = ms.drop_first();
    let e0 = encode_spec(m0);
    assert(el == e0 + encode_list(rest));
    assert forall|k: int| 0 <= k < avail implies b[pos + k] == el[k] by {
        assert(b[pos + k] == el.take(avail)[k]);
    }
    assert(wf(m0));
    if avail < e0.len() {
        assert forall|k: int| 0 <= k < avail implies b[pos + k] == #[trigger] e0.take(avail)[k] by {
            assert(el[k] == e0[k]);
        }
        lemma_prefix_at(m0, b, pos);
    } else {
        assert forall|k: int| 0 <= k < e0.len() implies b[pos + k] == #[trigger] e0[k] by {
            assert(el[k] == e0[k]);
        }
        lemma_parse_at(m0, b, pos);
        lemma_encode_nonempty(m0);
        let end = pos + e0.len();
        assert forall|i: int| 0 <= i < rest.len() implies wf(#[trigger] rest[i]) by {
            assert(rest[i] == ms[i + 1]);
        }
        let erest = encode_list(rest);
        assert forall|k: int| 0 <= k < b.len() - end implies b[end + k] == #[trigger] erest.take(b.len() - end)[k] by {
            assert(b[pos + (e0.len() + k)] == el[e0.len() + k]);
            assert(el[e0.len() + k] == erest[k]);
        }
        lemma_prefix_at_list(rest, b, end);
    }
}

/// Streaming equivalence: any strict prefix of a frame's encoding,
/// delivered alone, decodes as incomplete — never as a frame and never as
/// an error — while the whole encoding decodes as exactly that frame. So a
/// valid encoding split into two deliveries yields, once the second piece
/// has been appended, the same frame as one delivery of the whole.
pub proof fn lemma_streaming_split(m: FrameModel, k: int)
    requires
        wf(m),
        0 <= k < encode_spec(m).len(),
    ensures
        spec_parse(encode_spec(m).take(k), 0) is Partial,
        spec_parse(encode_spec(m), 0) == Parsed::Found(m, encode_spec(m).len() as int),
{
    lemma_round_trip(m);
    let enc = encode_spec(m);
    let b = enc.take(k);
    assert(bytes_at(b, 0, enc.take(b.len() - 0))) by {
        assert forall|j: int| 0 <= j < enc.take(b.len() - 0).len()
            implies b[0 + j] == #[trigger] enc.take(b.len() - 0)[j] by {
            assert(b[j] == enc[j]);
        }
    }
    lemma_prefix_at(m, b, 0);
}

/// Round trip: decoding the encoding of any constructible frame yields that
/// frame back and consumes exactly the encoded length.
pub proof fn lemma_round_trip(m: FrameModel)
    requires
        wf(m),
    ensures
        spec_parse(encode_spec(m), 0) == Parsed::Found(m, encode_spec(m).len() as int),
{
    let enc = encode_spec(m);
    assert(enc.subrange(0, enc.len() as int) =~= enc);
    lemma_bytes_at(enc, 0, enc);
    lemma_parse_at(m, enc, 0);
}

} // verus!
