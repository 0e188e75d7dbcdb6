//! The encoder: every representable frame has exactly one wire encoding,
//! written down by the spec function [`enc`], and [`encode`] produces exactly
//! those bytes. Encoding is total: it never fails.

use vstd::prelude::*;

use crate::frame::{Frame, FrameModel};

verus! {

/// The two-byte line terminator.
pub open spec fn crlf() -> Seq<u8> {
    seq![13u8, 10u8]
}

/// Decimal digits of a non-negative number, most significant first, no
/// leading zeros (a single `0` for zero).
pub open spec fn dec_digits(n: int) -> Seq<u8>
    recommends
        n >= 0,
    decreases n,
{
    if n <= 9 {
        seq![(48 + n) as u8]
    } else {
        dec_digits(n / 10).push((48 + n % 10) as u8)
    }
}

/// An integer line as the wire shows it: the sign is always explicit,
/// `+` for zero and positive values.
pub open spec fn int_digits(i: int) -> Seq<u8> {
    if i < 0 {
        seq![45u8] + dec_digits(-i)
    } else {
        seq![43u8] + dec_digits(i)
    }
}

/// The exact byte encoding of a frame.
pub open spec fn enc(f: FrameModel) -> Seq<u8>
    decreases f,
{
    match f {
        FrameModel::SimpleString(t) => seq![43u8] + t + crlf(),
        FrameModel::SimpleError(t) => seq![45u8] + t + crlf(),
        FrameModel::Integer(i) => seq![58u8] + int_digits(i) + crlf(),
        FrameModel::BulkString(b) => seq![36u8] + dec_digits(b.len() as int) + crlf() + b
            + crlf(),
        FrameModel::NullBulkString => seq![36u8, 45u8, 49u8, 13u8, 10u8],
        FrameModel::Array(els) => seq![42u8] + dec_digits(els.len() as int) + crlf() + enc_seq(
            els,
        ),
        FrameModel::NullArray => seq![42u8, 45u8, 49u8, 13u8, 10u8],
        FrameModel::Null => seq![95u8, 13u8, 10u8],
        FrameModel::Boolean(b) => seq![
            35u8,
            if b {
                116u8
            } else {
                102u8
            },
            13u8,
            10u8,
        ],
        FrameModel::Double(t) => seq![44u8] + t + crlf(),
        FrameModel::Table(ps) => seq![37u8] + dec_digits(ps.len() as int) + crlf() + enc_pairs(
            ps,
        ),
        FrameModel::Distinct(els) => seq![126u8] + dec_digits(els.len() as int) + crlf()
            + enc_seq(els),
    }
}

/// Concatenated encodings of a sequence of frames, in order.
pub open spec fn enc_seq(els: Seq<FrameModel>) -> Seq<u8>
    decreases els,
{
    if els.len() == 0 {
        Seq::empty()
    } else {
        enc(els.first()) + enc_seq(els.drop_first())
    }
}

/// A pair key on the wire: re-encoded as a simple string.
pub open spec fn enc_key(k: Seq<u8>) -> Seq<u8> {
    seq![43u8] + k + crlf()
}

/// Concatenated encodings of a sequence of pairs: per pair, the key as a
/// simple string, then the value.
pub open spec fn enc_pairs(ps: Seq<(Seq<u8>, FrameModel)>) -> Seq<u8>
    decreases ps,
{
    if ps.len() == 0 {
        Seq::empty()
    } else {
        enc_key(ps.first().0) + enc(ps.first().1) + enc_pairs(ps.drop_first())
    }
}

/// Appending one frame at the back extends the concatenated encoding at the
/// back.
pub proof fn lemma_enc_seq_snoc(els: Seq<FrameModel>, f: FrameModel)
    ensures
        enc_seq(els.push(f)) == enc_seq(els) + enc(f),
    decreases els.len(),
{
    if els.len() == 0 {
        assert(els.push(f).first() == f);
        assert(els.push(f).drop_first() =~= Seq::<FrameModel>::empty());
        assert(enc_seq(Seq::<FrameModel>::empty()) =~= Seq::<u8>::empty());
        assert(enc_seq(els.push(f)) == enc(f) + enc_seq(Seq::<FrameModel>::empty()));
        assert(enc_seq(els) =~= Seq::<u8>::empty());
        assert(enc_seq(els.push(f)) =~= enc_seq(els) + enc(f));
    } else {
        assert(els.push(f).first() == els.first());
        assert(els.push(f).drop_first() =~= els.drop_first().push(f));
        lemma_enc_seq_snoc(els.drop_first(), f);
        assert(enc_seq(els.push(f)) == enc(els.first()) + enc_seq(els.drop_first().push(f)));
        assert(enc_seq(els) == enc(els.first()) + enc_seq(els.drop_first()));
        assert(enc_seq(els.push(f)) =~= enc_seq(els) + enc(f));
    }
}

/// The pairwise analogue of [`lemma_enc_seq_snoc`].
pub proof fn lemma_enc_pairs_snoc(ps: Seq<(Seq<u8>, FrameModel)>, p: (Seq<u8>, FrameModel))
    ensures
        enc_pairs(ps.push(p)) == enc_pairs(ps) + enc_key(p.0) + enc(p.1),
    decreases ps.len(),
{
    if ps.len() == 0 {
        assert(ps.push(p).first() == p);
        assert(ps.push(p).drop_first() =~= Seq::<(Seq<u8>, FrameModel)>::empty());
        assert(enc_pairs(Seq::<(Seq<u8>, FrameModel)>::empty()) =~= Seq::<u8>::empty());
        assert(enc_pairs(ps.push(p)) == enc_key(p.0) + enc(p.1) + enc_pairs(
            Seq::<(Seq<u8>, FrameModel)>::empty(),
        ));
        assert(enc_pairs(ps) =~= Seq::<u8>::empty());
        assert(enc_pairs(ps.push(p)) =~= enc_pairs(ps) + enc_key(p.0) + enc(p.1));
    } else {
        assert(ps.push(p).first() == ps.first());
        assert(ps.push(p).drop_first() =~= ps.drop_first().push(p));
        lemma_enc_pairs_snoc(ps.drop_first(), p);
        assert(enc_pairs(ps.push(p)) == enc_key(ps.first().0) + enc(ps.first().1) + enc_pairs(
            ps.drop_first().push(p),
        ));
        assert(enc_pairs(ps) == enc_key(ps.first().0) + enc(ps.first().1) + enc_pairs(
            ps.drop_first(),
        ));
        assert(enc_pairs(ps.push(p)) =~= enc_pairs(ps) + enc_key(p.0) + enc(p.1));
    }
}

/// Append the decimal digits of `n`.
fn push_digits(out: &mut Vec<u8>, n: u64)
    ensures
        final(out)@ == old(out)@ + dec_digits(n as int),
    decreases n,
{
    if n <= 9 {
        out.push((48 + n) as u8);
        assert(out@ =~= old(out)@ + dec_digits(n as int));
    } else {
        push_digits(out, n / 10);
        out.push((48 + (n % 10)) as u8);
        assert(out@ =~= old(out)@ + dec_digits(n as int));
    }
}

/// Append a copy of `b`.
fn push_bytes(out: &mut Vec<u8>, b: &Vec<u8>)
    ensures
        final(out)@ == old(out)@ + b@,
{
    let mut i: usize = 0;
    while i < b.len()
        invariant
            i <= b.len(),
            out@ == old(out)@ + b@.take(i as int),
        decreases b.len() - i,
    {
        out.push(b[i]);
        assert(old(out)@ + b@.take(i as int) + seq![b@[i as int]] =~= old(out)@ + b@.take(
            i as int + 1,
        ));
        i = i + 1;
    }
    assert(b@.take(b@.len() as int) =~= b@);
}

/// Append the CRLF terminator.
fn push_crlf(out: &mut Vec<u8>)
    ensures
        final(out)@ == old(out)@ + crlf(),
{
    out.push(13);
    out.push(10);
    assert(out@ =~= old(out)@ + crlf());
}

/// Append the integer line with its explicit sign.
fn push_int(out: &mut Vec<u8>, i: i64)
    ensures
        final(out)@ == old(out)@ + int_digits(i as int),
{
    if i >= 0 {
        out.push(43);
        assert(out@ =~= old(out)@ + seq![43u8]);
        push_digits(out, i as u64);
        assert(out@ =~= old(out)@ + int_digits(i as int));
    } else {
        out.push(45);
        assert(out@ =~= old(out)@ + seq![45u8]);
        let m: u64 = if i == i64::MIN {
            9223372036854775808u64
        } else {
            (-i) as u64
        };
        assert(m as int == -(i as int));
        push_digits(out, m);
        assert(out@ =~= old(out)@ + int_digits(i as int));
    }
}

/// Append the encoding of `f`.
fn encode_into(f: &Frame, out: &mut Vec<u8>)
    ensures
        final(out)@ == old(out)@ + enc(f@),
    decreases f,
{
    broadcast use crate::frame::lemma_frames_view, crate::frame::lemma_pairs_view;

    match f {
        Frame::SimpleString(t) => {
            out.push(43);
            push_bytes(out, t);
            push_crlf(out);
            assert(out@ =~= old(out)@ + enc(f@));
        },
        Frame::SimpleError(t) => {
            out.push(45);
            push_bytes(out, t);
            push_crlf(out);
            assert(out@ =~= old(out)@ + enc(f@));
        },
        Frame::Integer(i) => {
            out.push(58);
            push_int(out, *i);
            push_crlf(out);
            assert(out@ =~= old(out)@ + enc(f@));
        },
        Frame::BulkString(b) => {
            out.push(36);
            push_digits(out, b.len() as u64);
            push_crlf(out);
            push_bytes(out, b);
            push_crlf(out);
            assert(out@ =~= old(out)@ + enc(f@));
        },
        Frame::NullBulkString => {
            out.push(36);
            out.push(45);
            out.push(49);
            push_crlf(out);
            assert(out@ =~= old(out)@ + enc(f@));
        },
        Frame::Array(els) => {
            out.push(42);
            push_digits(out, els.len() as u64);
            push_crlf(out);
            encode_frames(els, out);
            assert(out@ =~= old(out)@ + enc(f@));
        },
        Frame::NullArray => {
            out.push(42);
            out.push(45);
            out.push(49);
            push_crlf(out);
            assert(out@ =~= old(out)@ + enc(f@));
        },
        Frame::Null => {
            out.push(95);
            push_crlf(out);
            assert(out@ =~= old(out)@ + enc(f@));
        },
        Frame::Boolean(b) => {
            out.push(35);
            if *b {
                out.push(116);
            } else {
                out.push(102);
            }
            push_crlf(out);
            assert(out@ =~= old(out)@ + enc(f@));
        },
        Frame::Double(t) => {
            out.push(44);
            push_bytes(out, t);
            push_crlf(out);
            assert(out@ =~= old(out)@ + enc(f@));
        },
        Frame::Table(ps) => {
            out.push(37);
            push_digits(out, ps.len() as u64);
            push_crlf(out);
            encode_table(ps, out);
            assert(out@ =~= old(out)@ + enc(f@));
        },
        Frame::Distinct(els) => {
            out.push(126);
            push_digits(out, els.len() as u64);
            push_crlf(out);
            encode_frames(els, out);
            assert(out@ =~= old(out)@ + enc(f@));
        },
    }
}

/// Append the encodings of all frames in `els`, in order.
fn encode_frames(els: &Vec<Frame>, out: &mut Vec<u8>)
    ensures
        final(out)@ == old(out)@ + enc_seq(crate::frame::frames_view(els@)),
    decreases els,
{
    broadcast use crate::frame::lemma_frames_view;

    let ghost view = crate::frame::frames_view(els@);
    let mut i: usize = 0;
    assert(enc_seq(view.take(0)) =~= Seq::<u8>::empty());
    assert(out@ =~= old(out)@ + enc_seq(view.take(0)));
    while i < els.len()
        invariant
            i <= els.len(),
            view == crate::frame::frames_view(els@),
            view.len() == els@.len(),
            forall|j: int| 0 <= j < els@.len() ==> view[j] == #[trigger] els@[j]@,
            out@ == old(out)@ + enc_seq(view.take(i as int)),
        decreases els.len() - i,
    {
        encode_into(&els[i], out);
        proof {
            assert(view.take(i as int).push(view[i as int]) =~= view.take(i as int + 1));
            lemma_enc_seq_snoc(view.take(i as int), view[i as int]);
            assert(out@ =~= old(out)@ + enc_seq(view.take(i as int + 1)));
        }
        i = i + 1;
    }
    assert(view.take(els@.len() as int) =~= view);
}

/// Append the encodings of all pairs in `ps`: key as simple string, then
/// value, in order.
fn encode_table(ps: &Vec<(Vec<u8>, Frame)>, out: &mut Vec<u8>)
    ensures
        final(out)@ == old(out)@ + enc_pairs(crate::frame::pairs_view(ps@)),
    decreases ps,
{
    broadcast use crate::frame::lemma_pairs_view;

    let ghost view = crate::frame::pairs_view(ps@);
    let mut i: usize = 0;
    assert(enc_pairs(view.take(0)) =~= Seq::<u8>::empty());
    assert(out@ =~= old(out)@ + enc_pairs(view.take(0)));
    while i < ps.len()
        invariant
            i <= ps.len(),
            view == crate::frame::pairs_view(ps@),
            view.len() == ps@.len(),
            forall|j: int| 0 <= j < ps@.len() ==> view[j] == ((#[trigger] ps@[j]).0@, ps@[j].1@),
            out@ == old(out)@ + enc_pairs(view.take(i as int)),
        decreases ps.len() - i,
    {
        out.push(43);
        push_bytes(out, &ps[i].0);
        push_crlf(out);
        assert(out@ =~= old(out)@ + enc_pairs(view.take(i as int)) + enc_key(view[i as int].0));
        encode_into(&ps[i].1, out);
        proof {
            assert(view.take(i as int).push(view[i as int]) =~= view.take(i as int + 1));
            lemma_enc_pairs_snoc(view.take(i as int), view[i as int]);
            assert(out@ =~= old(out)@ + enc_pairs(view.take(i as int + 1)));
        }
        i = i + 1;
    }
    assert(view.take(ps@.len() as int) =~= view);
}

/// Encode a frame to its exact wire bytes.
pub fn encode(f: &Frame) -> (out: Vec<u8>)
    ensures
        out@ == enc(f@),
{
    let mut out: Vec<u8> = Vec::new();
    encode_into(f, &mut out);
    assert(out@ =~= enc(f@));
    out
}

} // verus!
