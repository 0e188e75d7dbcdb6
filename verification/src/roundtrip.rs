//! The two laws that tie the encoder and the decoder together.
//!
//! * Round-trip: decoding the encoding of any representable frame yields
//!   exactly that frame and consumes exactly its encoding's length
//!   ([`lemma_round_trip`]).
//! * Incremental-decode stability: decoding any strict prefix of a complete
//!   frame's bytes yields `Incomplete`, so a caller may feed a growing
//!   buffer to the decoder and never sees a spurious error or a wrong frame
//!   ([`lemma_prefix_incomplete`]).

use vstd::prelude::*;

use crate::decode::{
    all_digits, digits_val, find_crlf_from, parse_int, parse_len, spec_decode, spec_decode_at,
    spec_decode_elems, spec_decode_pairs, DecodedModel, ElemsModel, PairsModel,
};
use crate::encode::{crlf, dec_digits, enc, enc_key, enc_pairs, enc_seq, int_digits};
use crate::frame::{digits_span, is_digit, is_double_lit, line_ok, wf, FrameModel};

verus! {

/// Digit runs produced by the encoder read back as the number they encode.
pub proof fn lemma_dec_digits(n: int)
    requires
        n >= 0,
    ensures
        all_digits(dec_digits(n)),
        digits_val(dec_digits(n)) == n,
        dec_digits(n).len() >= 1,
    decreases n,
{
    if n <= 9 {
        assert(dec_digits(n) == seq![(48 + n) as u8]);
        assert(dec_digits(n).drop_last() =~= Seq::<u8>::empty());
        assert(digits_val(Seq::<u8>::empty()) == 0);
        assert(dec_digits(n).last() == (48 + n) as u8);
        assert(digits_val(dec_digits(n)) == 0 * 10 + ((48 + n) as u8 - 48));
    } else {
        lemma_dec_digits(n / 10);
        let prefix = dec_digits(n / 10);
        let whole = prefix.push((48 + n % 10) as u8);
        assert(dec_digits(n) == whole);
        assert(whole.drop_last() =~= prefix);
        assert(whole.last() == (48 + n % 10) as u8);
        assert(digits_val(whole) == digits_val(prefix) * 10 + (n % 10));
        assert forall|i: int| 0 <= i < whole.len() implies is_digit(#[trigger] whole[i]) by {
            if i < prefix.len() {
                assert(whole[i] == prefix[i]);
            }
        }
    }
}

/// A run of digits is a clean line: it holds no CR and no LF.
pub proof fn lemma_digits_line_ok(d: Seq<u8>)
    requires
        forall|i: int| 0 <= i < d.len() ==> is_digit(#[trigger] d[i]),
    ensures
        line_ok(d),
{
}

/// Every frame encoding is at least three bytes long.
pub proof fn lemma_enc_len(f: FrameModel)
    ensures
        enc(f).len() >= 3,
{
    match f {
        FrameModel::Integer(i) => {
            if i < 0 {
                assert(enc(f).len() == 1 + (1 + dec_digits(-i).len()) + 2);
            } else {
                assert(enc(f).len() == 1 + (1 + dec_digits(i).len()) + 2);
            }
        },
        _ => {},
    }
}

/// When a CRLF stands right after `L` clean bytes, the scan finds exactly it.
pub proof fn lemma_find_crlf_exact(s: Seq<u8>, i: int, l: int)
    requires
        0 <= i,
        l >= 0,
        i + l + 2 <= s.len(),
        forall|j: int| i <= j < i + l ==> s[j] != 13 && s[j] != 10,
        s[i + l] == 13,
        s[i + l + 1] == 10,
    ensures
        find_crlf_from(s, i) == Some(i + l),
{
    crate::decode::lemma_find_crlf(s, i);
    match find_crlf_from(s, i) {
        Some(e) => {
            if e < i + l {
                assert(s[e] == 13);
            } else if e > i + l {
                assert(!(s[i + l] == 13 && s[i + l + 1] == 10));
            }
        },
        None => {
            assert(!(s[i + l] == 13 && s[i + l + 1] == 10));
        },
    }
}

/// The encoder's length lines parse back to the length they carry.
pub proof fn lemma_parse_len_digits(n: int)
    requires
        n >= 0,
    ensures
        parse_len(dec_digits(n)) == Some(n),
{
    lemma_dec_digits(n);
    let d = dec_digits(n);
    if d.len() == 2 && d[0] == 45 && d[1] == 49 {
        assert(is_digit(d[0]));
    }
}

/// The encoder's integer lines parse back to the integer they carry.
pub proof fn lemma_parse_int_digits(i: int)
    ensures
        parse_int(int_digits(i)) == Some(i),
        line_ok(int_digits(i)),
        int_digits(i).len() >= 2,
{
    let line = int_digits(i);
    let m: int = if i < 0 {
        -i
    } else {
        i
    };
    lemma_dec_digits(m);
    assert(line.subrange(1, line.len() as int) =~= dec_digits(m));
    assert(line[0] == 43 || line[0] == 45);
    assert forall|j: int| 0 <= j < line.len() implies line[j] != 13 && line[j] != 10 by {
        if j >= 1 {
            assert(line[j] == dec_digits(m)[j - 1]);
            assert(is_digit(dec_digits(m)[j - 1]));
        }
    }
}

/// Every index inside a digit span holds a digit, and the span is maximal.
pub proof fn lemma_digits_span_range(s: Seq<u8>, k: int)
    requires
        0 <= k <= s.len(),
    ensures
        k + digits_span(s, k) <= s.len(),
        digits_span(s, k) >= 0,
        forall|j: int| k <= j < k + digits_span(s, k) ==> is_digit(#[trigger] s[j]),
        k + digits_span(s, k) == s.len() || !is_digit(s[k + digits_span(s, k)]),
    decreases s.len() - k,
{
    if k < s.len() && is_digit(s[k]) {
        lemma_digits_span_range(s, k + 1);
    }
}

/// A well-formed double literal is a clean line: no CR, no LF.
pub proof fn lemma_double_line_ok(t: Seq<u8>)
    requires
        is_double_lit(t),
    ensures
        line_ok(t),
{
    let i0: int = if t.len() > 0 && crate::frame::is_sign(t[0]) {
        1
    } else {
        0
    };
    let d1 = digits_span(t, i0);
    let i1 = i0 + d1;
    lemma_digits_span_range(t, i0);
    let i2: int = if i1 < t.len() && t[i1] == 46 {
        i1 + 1 + digits_span(t, i1 + 1)
    } else {
        i1
    };
    if i1 < t.len() && t[i1] == 46 {
        lemma_digits_span_range(t, i1 + 1);
    }
    if i2 < t.len() {
        let i3: int = if i2 + 1 < t.len() && crate::frame::is_sign(t[i2 + 1]) {
            i2 + 2
        } else {
            i2 + 1
        };
        lemma_digits_span_range(t, i3);
        assert forall|j: int| 0 <= j < t.len() implies t[j] != 13 && t[j] != 10 by {
            if j < i0 {
            } else if j < i1 {
                assert(is_digit(t[j]));
            } else if j == i1 {
            } else if j < i2 {
                assert(is_digit(t[j]));
            } else if j == i2 {
            } else if j < i3 {
            } else {
                assert(is_digit(t[j]));
            }
        }
    } else {
        assert forall|j: int| 0 <= j < t.len() implies t[j] != 13 && t[j] != 10 by {
            if j < i0 {
            } else if j < i1 {
                assert(is_digit(t[j]));
            } else if j == i1 {
            } else if j < i2 {
                assert(is_digit(t[j]));
            }
        }
    }
}

/// Where `e` stands in `s` at `pos`, any slice of `e` stands at the
/// corresponding offset.
proof fn lemma_slice_of(s: Seq<u8>, pos: int, e: Seq<u8>, a: int, b: int)
    requires
        0 <= pos,
        pos + e.len() <= s.len(),
        s.subrange(pos, pos + e.len() as int) == e,
        0 <= a <= b <= e.len(),
    ensures
        s.subrange(pos + a, pos + b) == e.subrange(a, b),
{
    assert forall|i: int| 0 <= i < b - a implies s.subrange(pos + a, pos + b)[i] == e.subrange(
        a,
        b,
    )[i] by {
        assert(s.subrange(pos + a, pos + b)[i] == s[pos + a + i]);
        assert(s.subrange(pos, pos + e.len() as int)[a + i] == s[pos + a + i]);
        assert(e.subrange(a, b)[i] == e[a + i]);
    }
    assert(s.subrange(pos + a, pos + b) =~= e.subrange(a, b));
}

/// Where `e` stands in `s` at `pos`, each byte of `e` stands at its offset.
proof fn lemma_byte_of(s: Seq<u8>, pos: int, e: Seq<u8>, j: int)
    requires
        0 <= pos,
        pos + e.len() <= s.len(),
        s.subrange(pos, pos + e.len() as int) == e,
        0 <= j < e.len(),
    ensures
        s[pos + j] == e[j],
{
    assert(s.subrange(pos, pos + e.len() as int)[j] == s[pos + j]);
}

/// The pieces of a line-scalar encoding `tag t CRLF`.
proof fn lemma_line_parts(tag: u8, t: Seq<u8>)
    ensures
        (seq![tag] + t + crlf()).len() == t.len() + 3,
        (seq![tag] + t + crlf())[0] == tag,
        (seq![tag] + t + crlf()).subrange(1, 1 + t.len() as int) == t,
        (seq![tag] + t + crlf())[1 + t.len() as int] == 13,
        (seq![tag] + t + crlf())[2 + t.len() as int] == 10,
{
    let e = seq![tag] + t + crlf();
    assert(e.subrange(1, 1 + t.len() as int) =~= t);
}

/// Decoding at a position where a full line-scalar encoding `tag t CRLF`
/// stands, with a clean line `t`, finds exactly that line.
proof fn lemma_line_at(s: Seq<u8>, pos: int, t: Seq<u8>)
    requires
        0 <= pos,
        line_ok(t),
        pos + 1 + t.len() + 2 <= s.len(),
        s.subrange(pos + 1, pos + 1 + t.len() as int) == t,
        s[pos + 1 + t.len()] == 13,
        s[pos + 2 + t.len()] == 10,
    ensures
        find_crlf_from(s, pos + 1) == Some(pos + 1 + t.len() as int),
        s.subrange(pos + 1, pos + 1 + t.len() as int) == t,
{
    assert forall|j: int| pos + 1 <= j < pos + 1 + t.len() implies s[j] != 13 && s[j] != 10 by {
        assert(t[j - pos - 1] == s[j]);
    }
    lemma_find_crlf_exact(s, pos + 1, t.len() as int);
}

/// Where a full `tag t CRLF` encoding stands in `s` at `pos`, put the tag,
/// the line, and the terminator bytes in place and run [`lemma_line_at`].
proof fn lemma_line_site(s: Seq<u8>, pos: int, tag: u8, t: Seq<u8>)
    requires
        0 <= pos,
        line_ok(t),
        pos + t.len() + 3 <= s.len(),
        s.subrange(pos, pos + t.len() as int + 3) == seq![tag] + t + crlf(),
    ensures
        s[pos] == tag,
        find_crlf_from(s, pos + 1) == Some(pos + 1 + t.len() as int),
        s.subrange(pos + 1, pos + 1 + t.len() as int) == t,
{
    let e = seq![tag] + t + crlf();
    lemma_line_parts(tag, t);
    lemma_byte_of(s, pos, e, 0);
    lemma_slice_of(s, pos, e, 1, 1 + t.len() as int);
    lemma_byte_of(s, pos, e, 1 + t.len() as int);
    lemma_byte_of(s, pos, e, 2 + t.len() as int);
    lemma_line_at(s, pos, t);
}

/// Round-trip at any position: where the bytes of `enc(f)` stand in `s`,
/// the decoder completes with exactly `f`, ending right after them.
pub proof fn lemma_decode_encode_at(s: Seq<u8>, pos: int, f: FrameModel)
    requires
        wf(f),
        0 <= pos,
        pos + enc(f).len() <= s.len(),
        s.subrange(pos, pos + enc(f).len() as int) == enc(f),
    ensures
        spec_decode_at(s, pos) == DecodedModel::Complete(f, pos + enc(f).len() as int),
    decreases f, 2int,
{
    let e = enc(f);
    let n = e.len() as int;
    lemma_enc_len(f);
    match f {
        FrameModel::SimpleString(t) => {
            lemma_line_site(s, pos, 43, t);
        },
        FrameModel::SimpleError(t) => {
            lemma_line_site(s, pos, 45, t);
        },
        FrameModel::Integer(i) => {
            lemma_parse_int_digits(i as int);
            lemma_line_site(s, pos, 58, int_digits(i as int));
        },
        FrameModel::Boolean(b) => {
            let line: Seq<u8> = if b {
                seq![116u8]
            } else {
                seq![102u8]
            };
            assert(enc(f) == seq![35u8] + line + crlf()) by {
                assert(enc(f) =~= seq![35u8] + line + crlf());
            }
            lemma_line_site(s, pos, 35, line);
        },
        FrameModel::Double(t) => {
            lemma_double_line_ok(t);
            lemma_line_site(s, pos, 44, t);
        },
        FrameModel::Null => {
            let line = Seq::<u8>::empty();
            assert(enc(f) == seq![95u8] + line + crlf()) by {
                assert(enc(f) =~= seq![95u8] + line + crlf());
            }
            lemma_line_site(s, pos, 95, line);
        },
        FrameModel::NullBulkString => {
            let line = seq![45u8, 49u8];
            assert(enc(f) == seq![36u8] + line + crlf()) by {
                assert(enc(f) =~= seq![36u8] + line + crlf());
            }
            lemma_line_site(s, pos, 36, line);
            assert(parse_len(line) == Some(-1int));
        },
        FrameModel::NullArray => {
            let line = seq![45u8, 49u8];
            assert(enc(f) == seq![42u8] + line + crlf()) by {
                assert(enc(f) =~= seq![42u8] + line + crlf());
            }
            lemma_line_site(s, pos, 42, line);
            assert(parse_len(line) == Some(-1int));
        },
        FrameModel::BulkString(b) => {
            let d = dec_digits(b.len() as int);
            let dl = d.len() as int;
            let bl = b.len() as int;
            lemma_dec_digits(b.len() as int);
            lemma_digits_line_ok(d);
            lemma_parse_len_digits(b.len() as int);
            let head = seq![36u8] + d + crlf();
            let eb = head + b + crlf();
            assert(e == eb) by {
                assert(e =~= eb);
            }
            assert(head.len() == dl + 3) by {
                lemma_line_parts(36, d);
            }
            assert(eb.subrange(0, dl + 3) =~= head);
            lemma_slice_of(s, pos, eb, 0, dl + 3);
            assert(s.subrange(pos, pos + dl + 3) == head);
            lemma_line_site(s, pos, 36, d);
            let hp = pos + 1 + dl + 2;
            assert(eb.subrange(dl + 3, dl + 3 + bl) =~= b);
            lemma_slice_of(s, pos, eb, dl + 3, dl + 3 + bl);
            assert(s.subrange(hp, hp + bl) == b);
            assert(eb[dl + 3 + bl] == 13 && eb[dl + 3 + bl + 1] == 10) by {
                assert(eb[dl + 3 + bl] == crlf()[0]);
                assert(eb[dl + 3 + bl + 1] == crlf()[1]);
            }
            lemma_byte_of(s, pos, eb, dl + 3 + bl);
            lemma_byte_of(s, pos, eb, dl + 3 + bl + 1);
            assert(s[hp + bl] == 13 && s[hp + bl + 1] == 10);
        },
        FrameModel::Array(els) => {
            lemma_compound_at(s, pos, 42, els);
        },
        FrameModel::Distinct(els) => {
            lemma_compound_at(s, pos, 126, els);
        },
        FrameModel::Table(ps) => {
            let d = dec_digits(ps.len() as int);
            let dl = d.len() as int;
            let body = enc_pairs(ps);
            lemma_dec_digits(ps.len() as int);
            lemma_digits_line_ok(d);
            lemma_parse_len_digits(ps.len() as int);
            let head = seq![37u8] + d + crlf();
            let eb = head + body;
            assert(e == eb) by {
                assert(e =~= eb);
            }
            assert(head.len() == dl + 3) by {
                lemma_line_parts(37, d);
            }
            assert(eb.subrange(0, dl + 3) =~= head);
            lemma_slice_of(s, pos, eb, 0, dl + 3);
            lemma_line_site(s, pos, 37, d);
            let hp = pos + 1 + dl + 2;
            assert(eb.subrange(dl + 3, eb.len() as int) =~= body);
            lemma_slice_of(s, pos, eb, dl + 3, eb.len() as int);
            assert(s.subrange(hp, hp + body.len() as int) == body);
            lemma_decode_encode_pairs(s, hp, ps);
        },
    }
}

/// The compound step shared by `*` and `~`: header then elements.
proof fn lemma_compound_at(s: Seq<u8>, pos: int, tag: u8, els: Seq<FrameModel>)
    requires
        tag == 42 || tag == 126,
        0 <= pos,
        forall|i: int| 0 <= i < els.len() ==> wf(#[trigger] els[i]),
        pos + enc(if tag == 42 {
            FrameModel::Array(els)
        } else {
            FrameModel::Distinct(els)
        }).len() <= s.len(),
        s.subrange(
            pos,
            pos + enc(if tag == 42 {
                FrameModel::Array(els)
            } else {
                FrameModel::Distinct(els)
            }).len() as int,
        ) == enc(if tag == 42 {
            FrameModel::Array(els)
        } else {
            FrameModel::Distinct(els)
        }),
    ensures
        spec_decode_at(s, pos) == DecodedModel::Complete(
            if tag == 42 {
                FrameModel::Array(els)
            } else {
                FrameModel::Distinct(els)
            },
            pos + enc(if tag == 42 {
                FrameModel::Array(els)
            } else {
                FrameModel::Distinct(els)
            }).len() as int,
        ),
    decreases els, 1int,
{
    let f = if tag == 42 {
        FrameModel::Array(els)
    } else {
        FrameModel::Distinct(els)
    };
    let e = enc(f);
    let d = dec_digits(els.len() as int);
    let dl = d.len() as int;
    let body = enc_seq(els);
    lemma_dec_digits(els.len() as int);
    lemma_digits_line_ok(d);
    lemma_parse_len_digits(els.len() as int);
    let head = seq![tag] + d + crlf();
    let eb = head + body;
    assert(e == eb) by {
        assert(e =~= eb);
    }
    assert(head.len() == dl + 3) by {
        lemma_line_parts(tag, d);
    }
    assert(eb.subrange(0, dl + 3) =~= head);
    lemma_slice_of(s, pos, eb, 0, dl + 3);
    lemma_line_site(s, pos, tag, d);
    let hp = pos + 1 + dl + 2;
    assert(eb.subrange(dl + 3, eb.len() as int) =~= body);
    lemma_slice_of(s, pos, eb, dl + 3, eb.len() as int);
    assert(s.subrange(hp, hp + body.len() as int) == body);
    lemma_decode_encode_elems(s, hp, els);
}

/// Round-trip for a run of elements.
proof fn lemma_decode_encode_elems(s: Seq<u8>, pos: int, els: Seq<FrameModel>)
    requires
        0 <= pos,
        forall|i: int| 0 <= i < els.len() ==> wf(#[trigger] els[i]),
        pos + enc_seq(els).len() <= s.len(),
        s.subrange(pos, pos + enc_seq(els).len() as int) == enc_seq(els),
    ensures
        spec_decode_elems(s, pos, els.len() as int) == ElemsModel::Done(
            els,
            pos + enc_seq(els).len() as int,
        ),
    decreases els, 0int,
{
    if els.len() == 0 {
        assert(spec_decode_elems(s, pos, 0) == ElemsModel::Done(Seq::<FrameModel>::empty(), pos));
        assert(els =~= Seq::<FrameModel>::empty());
    } else {
        let f0 = els.first();
        let rest = els.drop_first();
        let l0 = enc(f0).len() as int;
        let lr = enc_seq(rest).len() as int;
        let eb = enc(f0) + enc_seq(rest);
        assert(enc_seq(els) == eb);
        assert(eb.subrange(0, l0) =~= enc(f0));
        lemma_slice_of(s, pos, eb, 0, l0);
        lemma_decode_encode_at(s, pos, f0);
        lemma_enc_len(f0);
        assert(eb.subrange(l0, l0 + lr) =~= enc_seq(rest));
        lemma_slice_of(s, pos, eb, l0, l0 + lr);
        lemma_decode_encode_elems(s, pos + l0, rest);
        assert(seq![f0] + rest =~= els);
    }
}

/// Decoding where a full simple-string encoding `+t CRLF` stands completes
/// with that simple string.
proof fn lemma_decode_simple_at(s: Seq<u8>, pos: int, t: Seq<u8>)
    requires
        0 <= pos,
        line_ok(t),
        pos + t.len() + 3 <= s.len(),
        s.subrange(pos, pos + t.len() as int + 3) == enc_key(t),
    ensures
        spec_decode_at(s, pos) == DecodedModel::Complete(
            FrameModel::SimpleString(t),
            pos + t.len() as int + 3,
        ),
{
    assert(enc_key(t) == seq![43u8] + t + crlf());
    lemma_line_site(s, pos, 43, t);
}

/// Round-trip for a run of pairs.
proof fn lemma_decode_encode_pairs(s: Seq<u8>, pos: int, ps: Seq<(Seq<u8>, FrameModel)>)
    requires
        0 <= pos,
        forall|i: int| 0 <= i < ps.len() ==> line_ok((#[trigger] ps[i]).0) && wf(ps[i].1),
        pos + enc_pairs(ps).len() <= s.len(),
        s.subrange(pos, pos + enc_pairs(ps).len() as int) == enc_pairs(ps),
    ensures
        spec_decode_pairs(s, pos, ps.len() as int) == PairsModel::Done(
            ps,
            pos + enc_pairs(ps).len() as int,
        ),
    decreases ps, 0int,
{
    if ps.len() == 0 {
        assert(spec_decode_pairs(s, pos, 0) == PairsModel::Done(
            Seq::<(Seq<u8>, FrameModel)>::empty(),
            pos,
        ));
        assert(ps =~= Seq::<(Seq<u8>, FrameModel)>::empty());
    } else {
        let key = ps.first().0;
        let vf = ps.first().1;
        let rest = ps.drop_first();
        let lk = enc_key(key).len() as int;
        let lv = enc(vf).len() as int;
        let lr = enc_pairs(rest).len() as int;
        let eb = enc_key(key) + enc(vf) + enc_pairs(rest);
        assert(enc_pairs(ps) == eb);
        assert(eb.subrange(0, lk) =~= enc_key(key));
        lemma_slice_of(s, pos, eb, 0, lk);
        lemma_decode_simple_at(s, pos, key);
        assert(eb.subrange(lk, lk + lv) =~= enc(vf));
        lemma_slice_of(s, pos, eb, lk, lk + lv);
        lemma_decode_encode_at(s, pos + lk, vf);
        lemma_enc_len(vf);
        assert(eb.subrange(lk + lv, lk + lv + lr) =~= enc_pairs(rest));
        lemma_slice_of(s, pos, eb, lk + lv, lk + lv + lr);
        lemma_decode_encode_pairs(s, pos + lk + lv, rest);
        assert(seq![(key, vf)] + rest =~= ps);
    }
}

/// Round-trip: decoding the exact encoding of any representable frame
/// completes with that frame, consuming the whole buffer.
pub proof fn lemma_round_trip(f: FrameModel)
    requires
        wf(f),
    ensures
        spec_decode(enc(f)) == DecodedModel::Complete(f, enc(f).len() as int),
{
    let s = enc(f);
    assert(s.subrange(0, s.len() as int) =~= s);
    lemma_decode_encode_at(s, 0, f);
}

/// Taking at most the first part of a concatenation is taking from the
/// first part alone.
proof fn lemma_take_prefix(a: Seq<u8>, b: Seq<u8>, k: int)
    requires
        0 <= k <= a.len(),
    ensures
        (a + b).take(k) == a.take(k),
{
    assert forall|i: int| 0 <= i < k implies (a + b).take(k)[i] == a.take(k)[i] by {
        assert((a + b).take(k)[i] == (a + b)[i]);
    }
    assert((a + b).take(k) =~= a.take(k));
}

/// Splitting a cut concatenation around the first part's end.
proof fn lemma_take_mid(a: Seq<u8>, b: Seq<u8>, k: int)
    requires
        a.len() <= k <= a.len() + b.len(),
    ensures
        (a + b).take(k).subrange(0, a.len() as int) == a,
        (a + b).take(k).subrange(a.len() as int, k) == b.take(k - a.len()),
{
    assert forall|i: int| 0 <= i < a.len() implies (a + b).take(k).subrange(
        0,
        a.len() as int,
    )[i] == a[i] by {
        assert((a + b).take(k).subrange(0, a.len() as int)[i] == (a + b).take(k)[i]);
        assert((a + b).take(k)[i] == (a + b)[i]);
    }
    assert((a + b).take(k).subrange(0, a.len() as int) =~= a);
    assert forall|i: int| 0 <= i < k - a.len() implies (a + b).take(k).subrange(
        a.len() as int,
        k,
    )[i] == b.take(k - a.len())[i] by {
        assert((a + b).take(k).subrange(a.len() as int, k)[i] == (a + b).take(k)[a.len() + i]);
        assert((a + b).take(k)[a.len() + i] == (a + b)[a.len() + i]);
    }
    assert((a + b).take(k).subrange(a.len() as int, k) =~= b.take(k - a.len()));
}

/// A cut line frame shows no complete CRLF, so the scan finds none.
proof fn lemma_prefix_line(s: Seq<u8>, pos: int, tag: u8, t: Seq<u8>)
    requires
        0 <= pos < s.len(),
        line_ok(t),
        s.len() - pos < t.len() + 3,
        s.subrange(pos, s.len() as int) == (seq![tag] + t + crlf()).take(s.len() - pos),
    ensures
        find_crlf_from(s, pos + 1) is None,
{
    let e = seq![tag] + t + crlf();
    let avail = s.len() - pos;
    crate::decode::lemma_find_crlf(s, pos + 1);
    match find_crlf_from(s, pos + 1) {
        Some(ee) => {
            let i1 = ee - pos;
            lemma_byte_of(s, pos, e.take(avail), i1);
            lemma_byte_of(s, pos, e.take(avail), i1 + 1);
            assert(e[i1] == 13 && e[i1 + 1] == 10);
            assert(e[i1] == (seq![tag] + t + crlf())[i1]);
            assert(e[i1 + 1] == (seq![tag] + t + crlf())[i1 + 1]);
            if i1 < 1 + t.len() {
                assert(t[i1 - 1] == 13);
            } else {
                assert(i1 == 1 + t.len());
                assert(i1 + 1 <= avail - 1);
            }
        },
        None => {},
    }
}

/// Cutting a frame's encoding anywhere before its end leaves the decoder
/// waiting for more bytes, never failing and never completing.
pub proof fn lemma_decode_prefix_at(s: Seq<u8>, pos: int, f: FrameModel)
    requires
        wf(f),
        0 <= pos <= s.len(),
        s.len() - pos < enc(f).len(),
        s.subrange(pos, s.len() as int) == enc(f).take(s.len() - pos),
    ensures
        spec_decode_at(s, pos) == DecodedModel::Incomplete,
    decreases f, 2int,
{
    let e = enc(f);
    let avail = s.len() - pos;
    lemma_enc_len(f);
    if pos == s.len() {
        return ;
    }
    lemma_byte_of(s, pos, e.take(avail), 0);
    match f {
        FrameModel::SimpleString(t) => {
            lemma_prefix_line(s, pos, 43, t);
        },
        FrameModel::SimpleError(t) => {
            lemma_prefix_line(s, pos, 45, t);
        },
        FrameModel::Integer(i) => {
            lemma_parse_int_digits(i as int);
            lemma_prefix_line(s, pos, 58, int_digits(i as int));
        },
        FrameModel::Boolean(b) => {
            let line: Seq<u8> = if b {
                seq![116u8]
            } else {
                seq![102u8]
            };
            assert(enc(f) == seq![35u8] + line + crlf()) by {
                assert(enc(f) =~= seq![35u8] + line + crlf());
            }
            lemma_prefix_line(s, pos, 35, line);
        },
        FrameModel::Double(t) => {
            lemma_double_line_ok(t);
            lemma_prefix_line(s, pos, 44, t);
        },
        FrameModel::Null => {
            let line = Seq::<u8>::empty();
            assert(enc(f) == seq![95u8] + line + crlf()) by {
                assert(enc(f) =~= seq![95u8] + line + crlf());
            }
            lemma_prefix_line(s, pos, 95, line);
        },
        FrameModel::NullBulkString => {
            let line = seq![45u8, 49u8];
            assert(line_ok(line));
            assert(enc(f) == seq![36u8] + line + crlf()) by {
                assert(enc(f) =~= seq![36u8] + line + crlf());
            }
            lemma_prefix_line(s, pos, 36, line);
        },
        FrameModel::NullArray => {
            let line = seq![45u8, 49u8];
            assert(line_ok(line));
            assert(enc(f) == seq![42u8] + line + crlf()) by {
                assert(enc(f) =~= seq![42u8] + line + crlf());
            }
            lemma_prefix_line(s, pos, 42, line);
        },
        FrameModel::BulkString(b) => {
            let d = dec_digits(b.len() as int);
            let dl = d.len() as int;
            let bl = b.len() as int;
            lemma_dec_digits(b.len() as int);
            lemma_digits_line_ok(d);
            lemma_parse_len_digits(b.len() as int);
            let head = seq![36u8] + d + crlf();
            let eb = head + (b + crlf());
            assert(e == eb) by {
                assert(e =~= eb);
            }
            assert(head.len() == dl + 3) by {
                lemma_line_parts(36, d);
            }
            if avail < dl + 3 {
                lemma_take_prefix(head, b + crlf(), avail);
                assert(head.take(avail) =~= (seq![36u8] + d + crlf()).take(avail));
                lemma_prefix_line(s, pos, 36, d);
            } else {
                lemma_take_mid(head, b + crlf(), avail);
                lemma_slice_of(s, pos, eb.take(avail), 0, dl + 3);
                assert(s.subrange(pos, pos + dl + 3) == head) by {
                    assert(head.take(head.len() as int) =~= head);
                }
                lemma_line_site(s, pos, 36, d);
                assert(pos + 1 + dl + 2 + bl + 2 > s.len());
            }
        },
        FrameModel::Array(els) => {
            lemma_prefix_compound(s, pos, 42, els);
        },
        FrameModel::Distinct(els) => {
            lemma_prefix_compound(s, pos, 126, els);
        },
        FrameModel::Table(ps) => {
            let d = dec_digits(ps.len() as int);
            let dl = d.len() as int;
            let body = enc_pairs(ps);
            lemma_dec_digits(ps.len() as int);
            lemma_digits_line_ok(d);
            lemma_parse_len_digits(ps.len() as int);
            let head = seq![37u8] + d + crlf();
            let eb = head + body;
            assert(e == eb) by {
                assert(e =~= eb);
            }
            assert(head.len() == dl + 3) by {
                lemma_line_parts(37, d);
            }
            if avail < dl + 3 {
                lemma_take_prefix(head, body, avail);
                assert(head.take(avail) =~= (seq![37u8] + d + crlf()).take(avail));
                lemma_prefix_line(s, pos, 37, d);
            } else {
                lemma_take_mid(head, body, avail);
                lemma_slice_of(s, pos, eb.take(avail), 0, dl + 3);
                assert(s.subrange(pos, pos + dl + 3) == head) by {
                    assert(head.take(head.len() as int) =~= head);
                }
                lemma_line_site(s, pos, 37, d);
                let hp = pos + dl + 3;
                lemma_slice_of(s, pos, eb.take(avail), dl + 3, avail);
                assert(s.subrange(hp, s.len() as int) == body.take(avail - (dl + 3)));
                lemma_prefix_pairs(s, hp, ps);
            }
        },
    }
}

/// The cut-compound step shared by `*` and `~`.
proof fn lemma_prefix_compound(s: Seq<u8>, pos: int, tag: u8, els: Seq<FrameModel>)
    requires
        tag == 42 || tag == 126,
        0 <= pos < s.len(),
        forall|i: int| 0 <= i < els.len() ==> wf(#[trigger] els[i]),
        s.len() - pos < enc(if tag == 42 {
            FrameModel::Array(els)
        } else {
            FrameModel::Distinct(els)
        }).len(),
        s.subrange(pos, s.len() as int) == enc(if tag == 42 {
            FrameModel::Array(els)
        } else {
            FrameModel::Distinct(els)
        }).take(s.len() - pos),
    ensures
        spec_decode_at(s, pos) == DecodedModel::Incomplete,
    decreases els, 1int,
{
    let f = if tag == 42 {
        FrameModel::Array(els)
    } else {
        FrameModel::Distinct(els)
    };
    let e = enc(f);
    let avail = s.len() - pos;
    let d = dec_digits(els.len() as int);
    let dl = d.len() as int;
    let body = enc_seq(els);
    lemma_dec_digits(els.len() as int);
    lemma_digits_line_ok(d);
    lemma_parse_len_digits(els.len() as int);
    lemma_byte_of(s, pos, e.take(avail), 0);
    let head = seq![tag] + d + crlf();
    let eb = head + body;
    assert(e == eb) by {
        assert(e =~= eb);
    }
    assert(head.len() == dl + 3) by {
        lemma_line_parts(tag, d);
    }
    if avail < dl + 3 {
        lemma_take_prefix(head, body, avail);
        assert(head.take(avail) =~= (seq![tag] + d + crlf()).take(avail));
        lemma_prefix_line(s, pos, tag, d);
    } else {
        lemma_take_mid(head, body, avail);
        lemma_slice_of(s, pos, eb.take(avail), 0, dl + 3);
        assert(s.subrange(pos, pos + dl + 3) == head) by {
            assert(head.take(head.len() as int) =~= head);
        }
        lemma_line_site(s, pos, tag, d);
        let hp = pos + dl + 3;
        lemma_slice_of(s, pos, eb.take(avail), dl + 3, avail);
        assert(s.subrange(hp, s.len() as int) == body.take(avail - (dl + 3)));
        lemma_prefix_elems(s, hp, els);
    }
}

/// A cut run of elements leaves the run waiting for more bytes.
proof fn lemma_prefix_elems(s: Seq<u8>, pos: int, els: Seq<FrameModel>)
    requires
        0 <= pos <= s.len(),
        forall|i: int| 0 <= i < els.len() ==> wf(#[trigger] els[i]),
        s.len() - pos < enc_seq(els).len(),
        s.subrange(pos, s.len() as int) == enc_seq(els).take(s.len() - pos),
    ensures
        spec_decode_elems(s, pos, els.len() as int) == ElemsModel::More,
    decreases els, 0int,
{
    let avail = s.len() - pos;
    assert(els.len() > 0);
    let f0 = els.first();
    let rest = els.drop_first();
    let l0 = enc(f0).len() as int;
    let lr = enc_seq(rest).len() as int;
    let eb = enc(f0) + enc_seq(rest);
    assert(enc_seq(els) == eb);
    lemma_enc_len(f0);
    if avail < l0 {
        lemma_take_prefix(enc(f0), enc_seq(rest), avail);
        lemma_decode_prefix_at(s, pos, f0);
    } else {
        lemma_take_mid(enc(f0), enc_seq(rest), avail);
        lemma_slice_of(s, pos, eb.take(avail), 0, l0);
        assert(s.subrange(pos, pos + l0) == enc(f0)) by {
            assert(enc(f0).take(l0) =~= enc(f0));
        }
        lemma_decode_encode_at(s, pos, f0);
        assert(rest.len() > 0);
        lemma_slice_of(s, pos, eb.take(avail), l0, avail);
        assert(s.subrange(pos + l0, s.len() as int) == enc_seq(rest).take(avail - l0));
        if avail == l0 {
            assert(spec_decode_at(s, pos + l0) == DecodedModel::Incomplete);
        } else {
            lemma_prefix_elems(s, pos + l0, rest);
        }
    }
}

/// A cut run of pairs leaves the run waiting for more bytes.
proof fn lemma_prefix_pairs(s: Seq<u8>, pos: int, ps: Seq<(Seq<u8>, FrameModel)>)
    requires
        0 <= pos <= s.len(),
        forall|i: int| 0 <= i < ps.len() ==> line_ok((#[trigger] ps[i]).0) && wf(ps[i].1),
        s.len() - pos < enc_pairs(ps).len(),
        s.subrange(pos, s.len() as int) == enc_pairs(ps).take(s.len() - pos),
    ensures
        spec_decode_pairs(s, pos, ps.len() as int) == PairsModel::More,
    decreases ps, 0int,
{
    let avail = s.len() - pos;
    assert(ps.len() > 0);
    let key = ps.first().0;
    let vf = ps.first().1;
    let rest = ps.drop_first();
    let lk = enc_key(key).len() as int;
    let lv = enc(vf).len() as int;
    let lr = enc_pairs(rest).len() as int;
    let ek = enc_key(key);
    let eb = ek + (enc(vf) + enc_pairs(rest));
    assert(enc_pairs(ps) == eb) by {
        assert(enc_pairs(ps) =~= eb);
    }
    lemma_enc_len(vf);
    assert(ek == seq![43u8] + key + crlf());
    if avail < lk {
        if pos < s.len() {
            lemma_take_prefix(ek, enc(vf) + enc_pairs(rest), avail);
            assert(ek.take(avail) =~= (seq![43u8] + key + crlf()).take(avail));
            lemma_byte_of(s, pos, eb.take(avail), 0);
            lemma_prefix_line(s, pos, 43, key);
        }
    } else {
        lemma_take_mid(ek, enc(vf) + enc_pairs(rest), avail);
        lemma_slice_of(s, pos, eb.take(avail), 0, lk);
        assert(s.subrange(pos, pos + lk) == ek) by {
            assert(ek.take(lk) =~= ek);
        }
        lemma_decode_simple_at(s, pos, key);
        let kend = pos + lk;
        lemma_slice_of(s, pos, eb.take(avail), lk, avail);
        assert(s.subrange(kend, s.len() as int) == (enc(vf) + enc_pairs(rest)).take(avail - lk));
        let avail2 = avail - lk;
        if avail2 < lv {
            lemma_take_prefix(enc(vf), enc_pairs(rest), avail2);
            lemma_decode_prefix_at(s, kend, vf);
        } else {
            lemma_take_mid(enc(vf), enc_pairs(rest), avail2);
            lemma_slice_of(s, kend, (enc(vf) + enc_pairs(rest)).take(avail2), 0, lv);
            assert(s.subrange(kend, kend + lv) == enc(vf)) by {
                assert(enc(vf).take(lv) =~= enc(vf));
            }
            lemma_decode_encode_at(s, kend, vf);
            assert(rest.len() > 0);
            let vend = kend + lv;
            lemma_slice_of(s, kend, (enc(vf) + enc_pairs(rest)).take(avail2), lv, avail2);
            assert(s.subrange(vend, s.len() as int) == enc_pairs(rest).take(avail2 - lv));
            if avail2 == lv {
                assert(spec_decode_at(s, vend) == DecodedModel::Incomplete);
            } else {
                lemma_prefix_pairs(s, vend, rest);
            }
        }
    }
}

/// Incremental-decode stability: any strict prefix of a complete frame's
/// bytes decodes to `Incomplete`. Together with [`lemma_round_trip`] and the
/// decoder being a function of the buffer alone, a caller that accumulates
/// bytes and retries sees `Incomplete` until the frame is whole, then the
/// frame itself.
pub proof fn lemma_prefix_incomplete(f: FrameModel, k: int)
    requires
        wf(f),
        0 <= k < enc(f).len(),
    ensures
        spec_decode(enc(f).take(k)) == DecodedModel::Incomplete,
{
    let s = enc(f).take(k);
    assert(s.subrange(0, s.len() as int) =~= s);
    assert(s.take(s.len() as int) =~= s);
    lemma_decode_prefix_at(s, 0, f);
}

} // verus!
