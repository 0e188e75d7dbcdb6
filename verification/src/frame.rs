//! The wire-frame data model: one decoded protocol value, either a scalar or
//! a compound that nests further frames.
//!
//! Every frame has a mathematical counterpart ([`FrameModel`]) built from
//! `Seq` and `int`; contracts throughout the crate speak of that model via the
//! `View` impl. A frame is *representable* on the wire when [`wf`] holds of
//! its model: line-based scalars carry no CR or LF, and a double carries a
//! well-formed signed numeric literal.

use vstd::prelude::*;

verus! {

/// One protocol value. The tag byte each variant uses on the wire is noted
/// beside it. The `%` frame keeps its pairs as an ordered sequence whose keys
/// are simple-string lines; the `~` frame is an ordered sequence whose
/// elements are semantically unique, though uniqueness is not enforced at the
/// frame layer.
#[derive(Debug, PartialEq, Eq)]
pub enum Frame {
    /// `+` — a line of text.
    SimpleString(Vec<u8>),
    /// `-` — a line of text with error semantics.
    SimpleError(Vec<u8>),
    /// `:` — signed 64-bit integer.
    Integer(i64),
    /// `$` — length-prefixed, binary-safe bytes.
    BulkString(Vec<u8>),
    /// `$-1` — the null bulk string, distinct from an empty one.
    NullBulkString,
    /// `*` — ordered sequence of frames.
    Array(Vec<Frame>),
    /// `*-1` — the null array, distinct from an empty one.
    NullArray,
    /// `_` — the generic null.
    Null,
    /// `#` — `t` or `f`.
    Boolean(bool),
    /// `,` — a numeric value, kept as its rendered signed literal so the
    /// frame layer stays byte-exact; producing the literal from a machine
    /// float is the caller's concern.
    Double(Vec<u8>),
    /// `%` — ordered key/value pairs, each key a simple-string line.
    Table(Vec<(Vec<u8>, Frame)>),
    /// `~` — ordered sequence of semantically unique frames.
    Distinct(Vec<Frame>),
}

/// The mathematical shape of a [`Frame`].
#[verifier::ext_equal]
pub enum FrameModel {
    SimpleString(Seq<u8>),
    SimpleError(Seq<u8>),
    Integer(int),
    BulkString(Seq<u8>),
    NullBulkString,
    Array(Seq<FrameModel>),
    NullArray,
    Null,
    Boolean(bool),
    Double(Seq<u8>),
    Table(Seq<(Seq<u8>, FrameModel)>),
    Distinct(Seq<FrameModel>),
}

/// Models of a sequence of frames, elementwise.
pub open spec fn frames_view(els: Seq<Frame>) -> Seq<FrameModel>
    decreases els,
{
    if els.len() == 0 {
        Seq::empty()
    } else {
        frames_view(els.drop_last()).push(els.last()@)
    }
}

/// Models of a sequence of key/value pairs, elementwise.
pub open spec fn pairs_view(ps: Seq<(Vec<u8>, Frame)>) -> Seq<(Seq<u8>, FrameModel)>
    decreases ps,
{
    if ps.len() == 0 {
        Seq::empty()
    } else {
        pairs_view(ps.drop_last()).push((ps.last().0@, ps.last().1@))
    }
}

impl View for Frame {
    type V = FrameModel;

    open spec fn view(&self) -> FrameModel
        decreases self,
    {
        match self {
            Frame::SimpleString(t) => FrameModel::SimpleString(t@),
            Frame::SimpleError(t) => FrameModel::SimpleError(t@),
            Frame::Integer(i) => FrameModel::Integer(*i as int),
            Frame::BulkString(b) => FrameModel::BulkString(b@),
            Frame::NullBulkString => FrameModel::NullBulkString,
            Frame::Array(els) => FrameModel::Array(frames_view(els@)),
            Frame::NullArray => FrameModel::NullArray,
            Frame::Null => FrameModel::Null,
            Frame::Boolean(b) => FrameModel::Boolean(*b),
            Frame::Double(t) => FrameModel::Double(t@),
            Frame::Table(ps) => FrameModel::Table(pairs_view(ps@)),
            Frame::Distinct(els) => FrameModel::Distinct(frames_view(els@)),
        }
    }
}

/// `frames_view` read pointwise.
pub broadcast proof fn lemma_frames_view(els: Seq<Frame>)
    ensures
        (#[trigger] frames_view(els)).len() == els.len(),
        forall|i: int| 0 <= i < els.len() ==> #[trigger] frames_view(els)[i] == els[i]@,
    decreases els,
{
    if els.len() == 0 {
        assert(frames_view(els) == Seq::<FrameModel>::empty());
    } else {
        lemma_frames_view(els.drop_last());
        assert(frames_view(els) == frames_view(els.drop_last()).push(els.last()@));
        assert forall|i: int| 0 <= i < els.len() implies #[trigger] frames_view(els)[i]
            == els[i]@ by {
            if i < els.len() - 1 {
                assert(els.drop_last()[i] == els[i]);
                assert(frames_view(els.drop_last())[i] == els.drop_last()[i]@);
            }
        }
    }
}

/// `pairs_view` read pointwise.
pub broadcast proof fn lemma_pairs_view(ps: Seq<(Vec<u8>, Frame)>)
    ensures
        (#[trigger] pairs_view(ps)).len() == ps.len(),
        forall|i: int|
            0 <= i < ps.len() ==> #[trigger] pairs_view(ps)[i] == (ps[i].0@, ps[i].1@),
    decreases ps,
{
    if ps.len() == 0 {
        assert(pairs_view(ps) == Seq::<(Seq<u8>, FrameModel)>::empty());
    } else {
        lemma_pairs_view(ps.drop_last());
        assert(pairs_view(ps) == pairs_view(ps.drop_last()).push((ps.last().0@, ps.last().1@)));
        assert forall|i: int| 0 <= i < ps.len() implies #[trigger] pairs_view(ps)[i] == (
        ps[i].0@,
        ps[i].1@,
        ) by {
            if i < ps.len() - 1 {
                assert(ps.drop_last()[i] == ps[i]);
                assert(pairs_view(ps.drop_last())[i] == (ps.drop_last()[i].0@, ps.drop_last()[i].1@));
            }
        }
    }
}

pub open spec fn is_digit(b: u8) -> bool {
    48 <= b <= 57
}

pub open spec fn is_sign(b: u8) -> bool {
    b == 43 || b == 45
}

/// A line of text that may stand before a CRLF terminator: no CR, no LF.
pub open spec fn line_ok(s: Seq<u8>) -> bool {
    forall|i: int| 0 <= i < s.len() ==> s[i] != 13 && s[i] != 10
}

/// Number of consecutive ASCII digits in `s` starting at `i`.
pub open spec fn digits_span(s: Seq<u8>, i: int) -> int
    decreases s.len() - i,
{
    if 0 <= i < s.len() && is_digit(s[i]) {
        1 + digits_span(s, i + 1)
    } else {
        0
    }
}

/// A signed numeric literal as the double frame carries it:
/// `[+-]? digits (. digits)? ([eE] [+-]? digits)?`, each digit run nonempty.
pub open spec fn is_double_lit(s: Seq<u8>) -> bool {
    let i0: int = if s.len() > 0 && is_sign(s[0]) {
        1
    } else {
        0
    };
    let d1 = digits_span(s, i0);
    if d1 == 0 {
        false
    } else {
        let i1 = i0 + d1;
        let i2: int = if i1 < s.len() && s[i1] == 46 {
            if digits_span(s, i1 + 1) == 0 {
                -1
            } else {
                i1 + 1 + digits_span(s, i1 + 1)
            }
        } else {
            i1
        };
        if i2 < 0 {
            false
        } else if i2 == s.len() {
            true
        } else if s[i2] == 101 || s[i2] == 69 {
            let i3: int = if i2 + 1 < s.len() && is_sign(s[i2 + 1]) {
                i2 + 2
            } else {
                i2 + 1
            };
            let d3 = digits_span(s, i3);
            d3 > 0 && i3 + d3 == s.len()
        } else {
            false
        }
    }
}

/// Representable frames: those with exactly one valid wire encoding that the
/// decoder recovers. Line scalars carry no CR/LF; doubles carry a well-formed
/// literal; compounds are representable elementwise.
pub open spec fn wf(f: FrameModel) -> bool
    decreases f,
{
    match f {
        FrameModel::SimpleString(t) => line_ok(t),
        FrameModel::SimpleError(t) => line_ok(t),
        FrameModel::Integer(i) => i64::MIN <= i <= i64::MAX,
        FrameModel::BulkString(_) => true,
        FrameModel::NullBulkString => true,
        FrameModel::Array(els) => forall|i: int| 0 <= i < els.len() ==> wf(#[trigger] els[i]),
        FrameModel::NullArray => true,
        FrameModel::Null => true,
        FrameModel::Boolean(_) => true,
        FrameModel::Double(t) => is_double_lit(t),
        FrameModel::Table(ps) => forall|i: int|
            0 <= i < ps.len() ==> line_ok((#[trigger] ps[i]).0) && wf(ps[i].1),
        FrameModel::Distinct(els) => forall|i: int| 0 <= i < els.len() ==> wf(#[trigger] els[i]),
    }
}

impl Frame {
    /// An owned deep copy, equal at the model level.
    pub fn duplicate(&self) -> (r: Frame)
        ensures
            r@ == self@,
        decreases self,
    {
        broadcast use lemma_frames_view, lemma_pairs_view;

        match self {
            Frame::SimpleString(t) => Frame::SimpleString(crate::text::copy_bytes(t)),
            Frame::SimpleError(t) => Frame::SimpleError(crate::text::copy_bytes(t)),
            Frame::Integer(i) => Frame::Integer(*i),
            Frame::BulkString(b) => Frame::BulkString(crate::text::copy_bytes(b)),
            Frame::NullBulkString => Frame::NullBulkString,
            Frame::Array(els) => Frame::Array(dup_frames(els)),
            Frame::NullArray => Frame::NullArray,
            Frame::Null => Frame::Null,
            Frame::Boolean(b) => Frame::Boolean(*b),
            Frame::Double(t) => Frame::Double(crate::text::copy_bytes(t)),
            Frame::Table(ps) => Frame::Table(dup_pairs(ps)),
            Frame::Distinct(els) => Frame::Distinct(dup_frames(els)),
        }
    }
}

/// Deep-copy a vector of frames.
fn dup_frames(els: &Vec<Frame>) -> (r: Vec<Frame>)
    ensures
        frames_view(r@) == frames_view(els@),
    decreases els,
{
    broadcast use lemma_frames_view;

    let mut out: Vec<Frame> = Vec::new();
    let mut i: usize = 0;
    while i < els.len()
        invariant
            i <= els.len(),
            out@.len() == i,
            forall|j: int| 0 <= j < i ==> #[trigger] out@[j]@ == els@[j]@,
        decreases els.len() - i,
    {
        out.push(els[i].duplicate());
        i = i + 1;
    }
    assert(frames_view(out@) =~= frames_view(els@));
    out
}

/// Deep-copy a vector of key/value pairs.
pub fn dup_pairs(ps: &Vec<(Vec<u8>, Frame)>) -> (r: Vec<(Vec<u8>, Frame)>)
    ensures
        pairs_view(r@) == pairs_view(ps@),
    decreases ps,
{
    broadcast use lemma_pairs_view;

    let mut out: Vec<(Vec<u8>, Frame)> = Vec::new();
    let mut i: usize = 0;
    while i < ps.len()
        invariant
            i <= ps.len(),
            out@.len() == i,
            forall|j: int|
                0 <= j < i ==> (#[trigger] out@[j]).0@ == ps@[j].0@ && out@[j].1@ == ps@[j].1@,
        decreases ps.len() - i,
    {
        out.push((crate::text::copy_bytes(&ps[i].0), ps[i].1.duplicate()));
        i = i + 1;
    }
    assert(pairs_view(out@) =~= pairs_view(ps@));
    out
}

} // verus!
