//! The streaming decoder. [`spec_decode`] is the mathematical decoder: a
//! total function from a byte buffer to one of three outcomes — a complete
//! frame with the count of bytes it occupies, `Incomplete` when the buffer
//! holds a valid but not yet fully present frame, or a protocol error when
//! the next bytes cannot begin any frame. The executable [`decode`] returns
//! exactly that outcome and consumes nothing, so a caller may feed a growing
//! buffer to it repeatedly.

use vstd::prelude::*;

use crate::frame::{is_digit, is_double_lit, Frame, FrameModel};

verus! {

/// Why a buffer can never again parse as a frame.
#[derive(Debug, Clone, Copy, PartialEq, Eq)]
pub enum ProtocolError {
    /// The first byte is no known frame tag.
    BadTag,
    /// A length or count line is neither `-1` nor a run of digits, or `-1`
    /// stands where no null variant exists.
    BadLength,
    /// An integer line is not a well-formed signed 64-bit integer.
    BadInteger,
    /// A double line is not a well-formed numeric literal.
    BadDouble,
    /// A boolean line is neither `t` nor `f`.
    BadBoolean,
    /// A null frame carries payload before its line ends.
    BadNull,
    /// A bulk string's payload is not followed by CRLF.
    BadFraming,
    /// A pair key inside a `%` frame is not a simple string.
    BadTableKey,
}

/// Outcome of decoding at the model level.
#[verifier::ext_equal]
pub enum DecodedModel {
    Complete(FrameModel, int),
    Incomplete,
    Fail(ProtocolError),
}

/// Outcome of decoding a run of `n` frames at the model level.
#[verifier::ext_equal]
pub enum ElemsModel {
    Done(Seq<FrameModel>, int),
    More,
    Bad(ProtocolError),
}

/// Outcome of decoding a run of `n` key/value pairs at the model level.
#[verifier::ext_equal]
pub enum PairsModel {
    Done(Seq<(Seq<u8>, FrameModel)>, int),
    More,
    Bad(ProtocolError),
}

/// Index of the first CRLF at or after `i`, if one is fully present.
pub open spec fn find_crlf_from(s: Seq<u8>, i: int) -> Option<int>
    decreases s.len() - i,
{
    if i + 2 > s.len() {
        None
    } else if s[i] == 13 && s[i + 1] == 10 {
        Some(i)
    } else {
        find_crlf_from(s, i + 1)
    }
}

/// What a found CRLF position satisfies, and what its absence means.
pub proof fn lemma_find_crlf(s: Seq<u8>, i: int)
    requires
        0 <= i,
    ensures
        find_crlf_from(s, i) matches Some(e) ==> i <= e && e + 2 <= s.len() && s[e] == 13 && s[e
            + 1] == 10 && forall|j: int| i <= j < e ==> !(#[trigger] s[j] == 13 && s[j + 1] == 10),
        find_crlf_from(s, i) is None ==> forall|j: int|
            i <= j && j + 2 <= s.len() ==> !(#[trigger] s[j] == 13 && s[j + 1] == 10),
    decreases s.len() - i,
{
    if i + 2 > s.len() {
    } else if s[i] == 13 && s[i + 1] == 10 {
    } else {
        lemma_find_crlf(s, i + 1);
    }
}

/// A nonempty run of ASCII digits.
pub open spec fn all_digits(s: Seq<u8>) -> bool {
    s.len() >= 1 && forall|i: int| 0 <= i < s.len() ==> is_digit(#[trigger] s[i])
}

/// Value of a run of digits, most significant first.
pub open spec fn digits_val(s: Seq<u8>) -> int
    decreases s.len(),
{
    if s.len() == 0 {
        0
    } else {
        digits_val(s.drop_last()) * 10 + (s.last() - 48)
    }
}

pub proof fn lemma_digits_val_nonneg(s: Seq<u8>)
    requires
        forall|i: int| 0 <= i < s.len() ==> is_digit(#[trigger] s[i]),
    ensures
        digits_val(s) >= 0,
    decreases s.len(),
{
    if s.len() > 0 {
        lemma_digits_val_nonneg(s.drop_last());
    }
}

/// A length or count line: `-1`, or a run of digits.
pub open spec fn parse_len(line: Seq<u8>) -> Option<int> {
    if line.len() == 2 && line[0] == 45 && line[1] == 49 {
        Some(-1int)
    } else if all_digits(line) {
        Some(digits_val(line))
    } else {
        None
    }
}

/// An integer line: optional sign, then digits.
pub open spec fn parse_int(line: Seq<u8>) -> Option<int> {
    if line.len() >= 1 && (line[0] == 43 || line[0] == 45) {
        let digs = line.subrange(1, line.len() as int);
        if all_digits(digs) {
            if line[0] == 45 {
                Some(-digits_val(digs))
            } else {
                Some(digits_val(digs))
            }
        } else {
            None
        }
    } else if all_digits(line) {
        Some(digits_val(line))
    } else {
        None
    }
}

/// Outcome for a line-based scalar whose full line is present.
pub open spec fn decode_line(tag: u8, line: Seq<u8>, end: int) -> DecodedModel {
    if tag == 43 {
        DecodedModel::Complete(FrameModel::SimpleString(line), end)
    } else if tag == 45 {
        DecodedModel::Complete(FrameModel::SimpleError(line), end)
    } else if tag == 58 {
        match parse_int(line) {
            Some(v) => if i64::MIN <= v <= i64::MAX {
                DecodedModel::Complete(FrameModel::Integer(v), end)
            } else {
                DecodedModel::Fail(ProtocolError::BadInteger)
            },
            None => DecodedModel::Fail(ProtocolError::BadInteger),
        }
    } else if tag == 35 {
        if line.len() == 1 && line[0] == 116 {
            DecodedModel::Complete(FrameModel::Boolean(true), end)
        } else if line.len() == 1 && line[0] == 102 {
            DecodedModel::Complete(FrameModel::Boolean(false), end)
        } else {
            DecodedModel::Fail(ProtocolError::BadBoolean)
        }
    } else if tag == 44 {
        if is_double_lit(line) {
            DecodedModel::Complete(FrameModel::Double(line), end)
        } else {
            DecodedModel::Fail(ProtocolError::BadDouble)
        }
    } else {
        if line.len() == 0 {
            DecodedModel::Complete(FrameModel::Null, end)
        } else {
            DecodedModel::Fail(ProtocolError::BadNull)
        }
    }
}

/// The decoder itself, reading one frame that starts at `pos`.
pub open spec fn spec_decode_at(s: Seq<u8>, pos: int) -> DecodedModel
    decreases s.len() - pos, 0int, 0int,
{
    if pos < 0 || pos + 1 > s.len() {
        DecodedModel::Incomplete
    } else {
        let tag = s[pos];
        if tag == 43 || tag == 45 || tag == 58 || tag == 35 || tag == 44 || tag == 95 {
            match find_crlf_from(s, pos + 1) {
                None => DecodedModel::Incomplete,
                Some(e) => decode_line(tag, s.subrange(pos + 1, e), e + 2),
            }
        } else if tag == 36 {
            match find_crlf_from(s, pos + 1) {
                None => DecodedModel::Incomplete,
                Some(e) => match parse_len(s.subrange(pos + 1, e)) {
                    None => DecodedModel::Fail(ProtocolError::BadLength),
                    Some(n) => if n == -1 {
                        DecodedModel::Complete(FrameModel::NullBulkString, e + 2)
                    } else if e + 2 + n + 2 > s.len() {
                        DecodedModel::Incomplete
                    } else if s[e + 2 + n] == 13 && s[e + 2 + n + 1] == 10 {
                        DecodedModel::Complete(
                            FrameModel::BulkString(s.subrange(e + 2, e + 2 + n)),
                            e + 2 + n + 2,
                        )
                    } else {
                        DecodedModel::Fail(ProtocolError::BadFraming)
                    },
                },
            }
        } else if tag == 42 || tag == 126 {
            match find_crlf_from(s, pos + 1) {
                None => DecodedModel::Incomplete,
                Some(e) => match parse_len(s.subrange(pos + 1, e)) {
                    None => DecodedModel::Fail(ProtocolError::BadLength),
                    Some(n) => if n == -1 {
                        if tag == 42 {
                            DecodedModel::Complete(FrameModel::NullArray, e + 2)
                        } else {
                            DecodedModel::Fail(ProtocolError::BadLength)
                        }
                    } else if pos + 1 <= e && e + 2 <= s.len() {
                        match spec_decode_elems(s, e + 2, n) {
                            ElemsModel::Done(els, end2) => DecodedModel::Complete(
                                if tag == 42 {
                                    FrameModel::Array(els)
                                } else {
                                    FrameModel::Distinct(els)
                                },
                                end2,
                            ),
                            ElemsModel::More => DecodedModel::Incomplete,
                            ElemsModel::Bad(k) => DecodedModel::Fail(k),
                        }
                    } else {
                        // never reached: a found CRLF lies within the buffer
                        DecodedModel::Incomplete
                    },
                },
            }
        } else if tag == 37 {
            match find_crlf_from(s, pos + 1) {
                None => DecodedModel::Incomplete,
                Some(e) => match parse_len(s.subrange(pos + 1, e)) {
                    None => DecodedModel::Fail(ProtocolError::BadLength),
                    Some(n) => if n == -1 {
                        DecodedModel::Fail(ProtocolError::BadLength)
                    } else if pos + 1 <= e && e + 2 <= s.len() {
                        match spec_decode_pairs(s, e + 2, n) {
                            PairsModel::Done(ps, end2) => DecodedModel::Complete(
                                FrameModel::Table(ps),
                                end2,
                            ),
                            PairsModel::More => DecodedModel::Incomplete,
                            PairsModel::Bad(k) => DecodedModel::Fail(k),
                        }
                    } else {
                        // never reached: a found CRLF lies within the buffer
                        DecodedModel::Incomplete
                    },
                },
            }
        } else {
            DecodedModel::Fail(ProtocolError::BadTag)
        }
    }
}

/// Decode `n` frames one after another, starting at `pos`.
pub open spec fn spec_decode_elems(s: Seq<u8>, pos: int, n: int) -> ElemsModel
    decreases s.len() - pos, 1int, n,
{
    if n <= 0 {
        ElemsModel::Done(Seq::empty(), pos)
    } else if pos < 0 || pos > s.len() {
        // never reached: callers pass a position inside the buffer
        ElemsModel::More
    } else {
        match spec_decode_at(s, pos) {
            DecodedModel::Incomplete => ElemsModel::More,
            DecodedModel::Fail(k) => ElemsModel::Bad(k),
            DecodedModel::Complete(f, end) => if pos < end <= s.len() {
                match spec_decode_elems(s, end, n - 1) {
                    ElemsModel::Done(rest, end2) => ElemsModel::Done(seq![f] + rest, end2),
                    ElemsModel::More => ElemsModel::More,
                    ElemsModel::Bad(k) => ElemsModel::Bad(k),
                }
            } else {
                // never reached: a complete frame occupies at least one byte
                ElemsModel::More
            },
        }
    }
}

/// Decode `n` pairs — simple-string key, then value — starting at `pos`.
pub open spec fn spec_decode_pairs(s: Seq<u8>, pos: int, n: int) -> PairsModel
    decreases s.len() - pos, 1int, n,
{
    if n <= 0 {
        PairsModel::Done(Seq::empty(), pos)
    } else if pos < 0 || pos > s.len() {
        // never reached: callers pass a position inside the buffer
        PairsModel::More
    } else {
        match spec_decode_at(s, pos) {
            DecodedModel::Incomplete => PairsModel::More,
            DecodedModel::Fail(k) => PairsModel::Bad(k),
            DecodedModel::Complete(kf, kend) => if pos < kend <= s.len() {
                match kf {
                    FrameModel::SimpleString(key) => match spec_decode_at(s, kend) {
                        DecodedModel::Incomplete => PairsModel::More,
                        DecodedModel::Fail(k) => PairsModel::Bad(k),
                        DecodedModel::Complete(vf, vend) => if kend < vend <= s.len() {
                            match spec_decode_pairs(s, vend, n - 1) {
                                PairsModel::Done(rest, end2) => PairsModel::Done(
                                    seq![(key, vf)] + rest,
                                    end2,
                                ),
                                PairsModel::More => PairsModel::More,
                                PairsModel::Bad(k) => PairsModel::Bad(k),
                            }
                        } else {
                            // never reached, as above
                            PairsModel::More
                        },
                    },
                    _ => PairsModel::Bad(ProtocolError::BadTableKey),
                }
            } else {
                // never reached, as above
                PairsModel::More
            },
        }
    }
}

/// The decoder applied to the start of the buffer.
pub open spec fn spec_decode(s: Seq<u8>) -> DecodedModel {
    spec_decode_at(s, 0)
}

/// The count of frames a run asks for does not matter once it exceeds what
/// the buffer could possibly hold: the run ends in `More` or `Bad` the same
/// way.
pub proof fn lemma_elems_oversized(s: Seq<u8>, pos: int, n1: int, n2: int)
    requires
        0 <= pos,
        n1 > s.len() - pos,
        n2 > s.len() - pos,
        n1 >= 1,
        n2 >= 1,
    ensures
        spec_decode_elems(s, pos, n1) == spec_decode_elems(s, pos, n2),
    decreases s.len() - pos,
{
    if pos > s.len() {
    } else {
        match spec_decode_at(s, pos) {
            DecodedModel::Complete(f, end) => {
                if pos < end <= s.len() {
                    lemma_elems_oversized(s, end, n1 - 1, n2 - 1);
                }
            },
            _ => {},
        }
    }
}

/// The pairwise analogue of [`lemma_elems_oversized`].
pub proof fn lemma_pairs_oversized(s: Seq<u8>, pos: int, n1: int, n2: int)
    requires
        0 <= pos,
        n1 > s.len() - pos,
        n2 > s.len() - pos,
        n1 >= 1,
        n2 >= 1,
    ensures
        spec_decode_pairs(s, pos, n1) == spec_decode_pairs(s, pos, n2),
    decreases s.len() - pos,
{
    if pos > s.len() {
    } else {
        match spec_decode_at(s, pos) {
            DecodedModel::Complete(kf, kend) => {
                if pos < kend <= s.len() {
                    match kf {
                        FrameModel::SimpleString(key) => {
                            match spec_decode_at(s, kend) {
                                DecodedModel::Complete(vf, vend) => {
                                    if kend < vend <= s.len() {
                                        lemma_pairs_oversized(s, vend, n1 - 1, n2 - 1);
                                    }
                                },
                                _ => {},
                            }
                        },
                        _ => {},
                    }
                }
            },
            _ => {},
        }
    }
}

/// Outcome of one decode call at the wire level. `Complete` carries the
/// decoded frame and how many bytes from the start of the buffer it
/// occupies; the buffer itself is never modified.
#[derive(Debug, PartialEq, Eq)]
pub enum Decoded {
    Complete(Frame, usize),
    Incomplete,
    Fail(ProtocolError),
}

impl View for Decoded {
    type V = DecodedModel;

    open spec fn view(&self) -> DecodedModel {
        match self {
            Decoded::Complete(f, end) => DecodedModel::Complete(f@, *end as int),
            Decoded::Incomplete => DecodedModel::Incomplete,
            Decoded::Fail(k) => DecodedModel::Fail(*k),
        }
    }
}

enum ElemsDecoded {
    Done(Vec<Frame>, usize),
    More,
    Bad(ProtocolError),
}

impl View for ElemsDecoded {
    type V = ElemsModel;

    closed spec fn view(&self) -> ElemsModel {
        match self {
            ElemsDecoded::Done(els, end) => ElemsModel::Done(
                crate::frame::frames_view(els@),
                *end as int,
            ),
            ElemsDecoded::More => ElemsModel::More,
            ElemsDecoded::Bad(k) => ElemsModel::Bad(*k),
        }
    }
}

enum PairsDecoded {
    Done(Vec<(Vec<u8>, Frame)>, usize),
    More,
    Bad(ProtocolError),
}

impl View for PairsDecoded {
    type V = PairsModel;

    closed spec fn view(&self) -> PairsModel {
        match self {
            PairsDecoded::Done(ps, end) => PairsModel::Done(
                crate::frame::pairs_view(ps@),
                *end as int,
            ),
            PairsDecoded::More => PairsModel::More,
            PairsDecoded::Bad(k) => PairsModel::Bad(*k),
        }
    }
}

/// Find the first fully present CRLF at or after `from`.
fn find_crlf(buf: &Vec<u8>, from: usize) -> (r: Option<usize>)
    requires
        from <= buf.len(),
    ensures
        r matches Some(e) ==> find_crlf_from(buf@, from as int) == Some(e as int) && from <= e
            && e + 2 <= buf.len(),
        r is None ==> find_crlf_from(buf@, from as int) is None,
{
    let mut i = from;
    while i < buf.len() && i + 1 < buf.len()
        invariant
            from <= i <= buf.len(),
            find_crlf_from(buf@, from as int) == find_crlf_from(buf@, i as int),
        decreases buf.len() - i,
    {
        if buf[i] == 13 && buf[i + 1] == 10 {
            proof {
                lemma_find_crlf(buf@, from as int);
            }
            return Some(i);
        }
        i = i + 1;
    }
    None
}

enum DigitsParsed {
    Val(u64),
    Huge,
    Bad,
}

/// Read a nonempty digit run as a number, reporting a value too large for
/// `u64` as `Huge`.
fn parse_digits(buf: &Vec<u8>, start: usize, end: usize) -> (r: DigitsParsed)
    requires
        start <= end <= buf.len(),
    ensures
        ({
            let line = buf@.subrange(start as int, end as int);
            &&& (r is Bad <==> !all_digits(line))
            &&& (r matches DigitsParsed::Val(v) ==> all_digits(line) && digits_val(line)
                == v as int)
            &&& (r is Huge ==> all_digits(line) && digits_val(line) > u64::MAX as int)
        }),
{
    let ghost line = buf@.subrange(start as int, end as int);
    if start == end {
        return DigitsParsed::Bad;
    }
    let mut i = start;
    let mut acc: u64 = 0;
    let mut huge = false;
    while i < end
        invariant
            start <= i <= end <= buf.len(),
            line == buf@.subrange(start as int, end as int),
            line.len() == end - start,
            forall|j: int| 0 <= j < i - start ==> is_digit(#[trigger] line[j]),
            !huge ==> acc as int == digits_val(line.take(i - start)),
            huge ==> digits_val(line.take(i - start)) > u64::MAX as int,
        decreases end - i,
    {
        let b = buf[i];
        assert(line[i - start] == b);
        if b < 48 || b > 57 {
            return DigitsParsed::Bad;
        }
        let d: u64 = (b - 48) as u64;
        proof {
            assert(line.take(i - start + 1).drop_last() =~= line.take(i - start));
            assert(line.take(i - start + 1).last() == line[i - start]);
            assert(digits_val(line.take(i - start + 1)) == digits_val(line.take(i - start)) * 10
                + d);
        }
        if huge {
            proof {
                let prev = digits_val(line.take(i - start));
                assert(prev * 10 + d >= prev * 10);
                assert(prev * 10 == prev + 9 * prev);
            }
        } else if acc > 1844674407370955161u64 || (acc == 1844674407370955161u64 && d > 5) {
            huge = true;
        } else {
            acc = acc * 10 + d;
        }
        i = i + 1;
    }
    assert(line.take(end - start) =~= line);
    if huge {
        DigitsParsed::Huge
    } else {
        DigitsParsed::Val(acc)
    }
}

enum LenParsed {
    NullMarker,
    Count(u64),
    Huge,
    Bad,
}

/// Read a length or count line: the `-1` null marker, or a digit run.
fn parse_len_line(buf: &Vec<u8>, start: usize, end: usize) -> (r: LenParsed)
    requires
        start <= end <= buf.len(),
    ensures
        ({
            let line = buf@.subrange(start as int, end as int);
            &&& (r is NullMarker <==> parse_len(line) == Some(-1int))
            &&& (r is Bad <==> parse_len(line) is None)
            &&& (r matches LenParsed::Count(v) ==> parse_len(line) == Some(v as int))
            &&& (r is Huge ==> (parse_len(line) matches Some(n) && n > u64::MAX as int))
        }),
{
    let ghost line = buf@.subrange(start as int, end as int);
    if end - start == 2 && buf[start] == 45 && buf[start + 1] == 49 {
        assert(line[0] == 45 && line[1] == 49);
        return LenParsed::NullMarker;
    }
    proof {
        if line.len() == 2 && line[0] == 45 && line[1] == 49 {
            assert(buf@[start as int] == 45 && buf@[start as int + 1] == 49);
        }
        if all_digits(line) {
            lemma_digits_val_nonneg(line);
        }
    }
    match parse_digits(buf, start, end) {
        DigitsParsed::Val(v) => LenParsed::Count(v),
        DigitsParsed::Huge => LenParsed::Huge,
        DigitsParsed::Bad => LenParsed::Bad,
    }
}

/// Read an integer line into a signed 64-bit value.
fn parse_int_line(buf: &Vec<u8>, start: usize, end: usize) -> (r: Option<i64>)
    requires
        start <= end <= buf.len(),
    ensures
        ({
            let line = buf@.subrange(start as int, end as int);
            &&& (r matches Some(x) ==> parse_int(line) == Some(x as int))
            &&& (r is None ==> !((parse_int(line) matches Some(v) && i64::MIN <= v <= i64::MAX)))
        }),
{
    let ghost line = buf@.subrange(start as int, end as int);
    let signed = start < end && (buf[start] == 43 || buf[start] == 45);
    let neg = start < end && buf[start] == 45;
    let dstart = if signed {
        start + 1
    } else {
        start
    };
    proof {
        assert(buf@.subrange(dstart as int, end as int) =~= (if signed {
            line.subrange(1, line.len() as int)
        } else {
            line
        }));
    }
    match parse_digits(buf, dstart, end) {
        DigitsParsed::Bad => None,
        DigitsParsed::Huge => {
            proof {
                let digs = buf@.subrange(dstart as int, end as int);
                assert(digits_val(digs) > u64::MAX as int);
            }
            None
        },
        DigitsParsed::Val(v) => {
            if neg {
                if v <= 9223372036854775808u64 {
                    let x: i64 = if v == 9223372036854775808u64 {
                        i64::MIN
                    } else {
                        -(v as i64)
                    };
                    Some(x)
                } else {
                    None
                }
            } else {
                if v <= 9223372036854775807u64 {
                    Some(v as i64)
                } else {
                    None
                }
            }
        },
    }
}

/// Copy `buf[start..end]` out as an owned vector.
fn copy_range(buf: &Vec<u8>, start: usize, end: usize) -> (out: Vec<u8>)
    requires
        start <= end <= buf.len(),
    ensures
        out@ == buf@.subrange(start as int, end as int),
{
    let mut out: Vec<u8> = Vec::new();
    let mut i = start;
    while i < end
        invariant
            start <= i <= end <= buf.len(),
            out@ == buf@.subrange(start as int, i as int),
        decreases end - i,
    {
        out.push(buf[i]);
        assert(out@ =~= buf@.subrange(start as int, i as int + 1));
        i = i + 1;
    }
    out
}

/// Length of the digit run in `buf[start..end]` beginning at offset `k`.
fn scan_digits(buf: &Vec<u8>, start: usize, end: usize, k: usize) -> (r: usize)
    requires
        start <= end <= buf.len(),
        k <= end - start,
    ensures
        r as int == crate::frame::digits_span(
            buf@.subrange(start as int, end as int),
            k as int,
        ),
        k + r <= end - start,
{
    let ghost line = buf@.subrange(start as int, end as int);
    let mut j = start + k;
    while j < end && buf[j] >= 48 && buf[j] <= 57
        invariant
            start + k <= j <= end <= buf.len(),
            line == buf@.subrange(start as int, end as int),
            crate::frame::digits_span(line, k as int) == (j - start - k)
                + crate::frame::digits_span(line, j - start),
        decreases end - j,
    {
        proof {
            assert(line[j - start] == buf@[j as int]);
        }
        j = j + 1;
    }
    proof {
        if j < end {
            assert(line[j - start] == buf@[j as int]);
        }
        assert(crate::frame::digits_span(line, j - start) == 0);
    }
    j - (start + k)
}

/// Decide whether `buf[start..end]` is a well-formed signed numeric literal.
fn check_double(buf: &Vec<u8>, start: usize, end: usize) -> (r: bool)
    requires
        start <= end <= buf.len(),
    ensures
        r == is_double_lit(buf@.subrange(start as int, end as int)),
{
    let ghost line = buf@.subrange(start as int, end as int);
    let len = end - start;
    let i0: usize = if len > 0 && (buf[start] == 43 || buf[start] == 45) {
        1
    } else {
        0
    };
    proof {
        if len > 0 {
            assert(line[0] == buf@[start as int]);
        }
    }
    let d1 = scan_digits(buf, start, end, i0);
    if d1 == 0 {
        return false;
    }
    let i1 = i0 + d1;
    let mut broke = false;
    let mut i2: usize = i1;
    if i1 < len && buf[start + i1] == 46 {
        assert(line[i1 as int] == buf@[start + i1]);
        let d2 = scan_digits(buf, start, end, i1 + 1);
        if d2 == 0 {
            broke = true;
        } else {
            i2 = i1 + 1 + d2;
        }
    }
    if broke {
        return false;
    }
    if i2 == len {
        return true;
    }
    assert(line[i2 as int] == buf@[start + i2]);
    let b = buf[start + i2];
    if b == 101 || b == 69 {
        let sign3 = i2 + 1 < len && (buf[start + i2 + 1] == 43 || buf[start + i2 + 1] == 45);
        proof {
            if i2 + 1 < len {
                assert(line[i2 as int + 1] == buf@[start + i2 + 1]);
            }
        }
        let i3: usize = if sign3 {
            i2 + 2
        } else {
            i2 + 1
        };
        let d3 = scan_digits(buf, start, end, i3);
        d3 > 0 && i3 + d3 == len
    } else {
        false
    }
}

/// Decode one frame beginning at `pos`.
#[verifier::rlimit(40)]
fn decode_at(buf: &Vec<u8>, pos: usize) -> (r: Decoded)
    requires
        pos <= buf.len(),
    ensures
        r@ == spec_decode_at(buf@, pos as int),
    decreases buf.len() - pos, 0int, 0int,
{
    let ghost s = buf@;
    if pos >= buf.len() {
        return Decoded::Incomplete;
    }
    let tag = buf[pos];
    if tag == 43 || tag == 45 || tag == 58 || tag == 35 || tag == 44 || tag == 95 {
        match find_crlf(buf, pos + 1) {
            None => Decoded::Incomplete,
            Some(e) => {
                let ghost lineg = s.subrange(pos as int + 1, e as int);
                if tag == 43 {
                    let line = copy_range(buf, pos + 1, e);
                    Decoded::Complete(Frame::SimpleString(line), e + 2)
                } else if tag == 45 {
                    let line = copy_range(buf, pos + 1, e);
                    Decoded::Complete(Frame::SimpleError(line), e + 2)
                } else if tag == 44 {
                    if check_double(buf, pos + 1, e) {
                        let line = copy_range(buf, pos + 1, e);
                        Decoded::Complete(Frame::Double(line), e + 2)
                    } else {
                        Decoded::Fail(ProtocolError::BadDouble)
                    }
                } else if tag == 58 {
                    match parse_int_line(buf, pos + 1, e) {
                        Some(v) => Decoded::Complete(Frame::Integer(v), e + 2),
                        None => Decoded::Fail(ProtocolError::BadInteger),
                    }
                } else if tag == 35 {
                    proof {
                        if e > pos + 1 {
                            assert(lineg[0] == s[pos as int + 1]);
                        }
                    }
                    if e == pos + 2 && buf[pos + 1] == 116 {
                        Decoded::Complete(Frame::Boolean(true), e + 2)
                    } else if e == pos + 2 && buf[pos + 1] == 102 {
                        Decoded::Complete(Frame::Boolean(false), e + 2)
                    } else {
                        Decoded::Fail(ProtocolError::BadBoolean)
                    }
                } else {
                    if e == pos + 1 {
                        Decoded::Complete(Frame::Null, e + 2)
                    } else {
                        Decoded::Fail(ProtocolError::BadNull)
                    }
                }
            },
        }
    } else if tag == 36 {
        match find_crlf(buf, pos + 1) {
            None => Decoded::Incomplete,
            Some(e) => match parse_len_line(buf, pos + 1, e) {
                LenParsed::Bad => Decoded::Fail(ProtocolError::BadLength),
                LenParsed::NullMarker => Decoded::Complete(Frame::NullBulkString, e + 2),
                LenParsed::Huge => Decoded::Incomplete,
                LenParsed::Count(n) => {
                    let avail = buf.len() - (e + 2);
                    if avail < 2 || n > (avail - 2) as u64 {
                        Decoded::Incomplete
                    } else {
                        let pend = e + 2 + (n as usize);
                        if buf[pend] == 13 && buf[pend + 1] == 10 {
                            let payload = copy_range(buf, e + 2, pend);
                            Decoded::Complete(Frame::BulkString(payload), pend + 2)
                        } else {
                            Decoded::Fail(ProtocolError::BadFraming)
                        }
                    }
                },
            },
        }
    } else if tag == 42 || tag == 126 {
        match find_crlf(buf, pos + 1) {
            None => Decoded::Incomplete,
            Some(e) => match parse_len_line(buf, pos + 1, e) {
                LenParsed::Bad => Decoded::Fail(ProtocolError::BadLength),
                LenParsed::NullMarker => if tag == 42 {
                    Decoded::Complete(Frame::NullArray, e + 2)
                } else {
                    Decoded::Fail(ProtocolError::BadLength)
                },
                LenParsed::Count(n) => {
                    let out = decode_elems(buf, e + 2, n);
                    match out {
                        ElemsDecoded::Done(els, end2) => Decoded::Complete(
                            if tag == 42 {
                                Frame::Array(els)
                            } else {
                                Frame::Distinct(els)
                            },
                            end2,
                        ),
                        ElemsDecoded::More => Decoded::Incomplete,
                        ElemsDecoded::Bad(k) => Decoded::Fail(k),
                    }
                },
                LenParsed::Huge => {
                    let big: u64 = (buf.len() - (e + 2)) as u64 + 1;
                    proof {
                        let nn = choose|v: int| parse_len(s.subrange(pos as int + 1, e as int))
                            == Some(v) && v > u64::MAX as int;
                        lemma_elems_oversized(s, e as int + 2, nn, big as int);
                    }
                    let out = decode_elems(buf, e + 2, big);
                    match out {
                        ElemsDecoded::Done(els, end2) => Decoded::Complete(
                            if tag == 42 {
                                Frame::Array(els)
                            } else {
                                Frame::Distinct(els)
                            },
                            end2,
                        ),
                        ElemsDecoded::More => Decoded::Incomplete,
                        ElemsDecoded::Bad(k) => Decoded::Fail(k),
                    }
                },
            },
        }
    } else if tag == 37 {
        match find_crlf(buf, pos + 1) {
            None => Decoded::Incomplete,
            Some(e) => match parse_len_line(buf, pos + 1, e) {
                LenParsed::Bad => Decoded::Fail(ProtocolError::BadLength),
                LenParsed::NullMarker => Decoded::Fail(ProtocolError::BadLength),
                LenParsed::Count(n) => {
                    let out = decode_pairs(buf, e + 2, n);
                    match out {
                        PairsDecoded::Done(ps, end2) => Decoded::Complete(Frame::Table(ps), end2),
                        PairsDecoded::More => Decoded::Incomplete,
                        PairsDecoded::Bad(k) => Decoded::Fail(k),
                    }
                },
                LenParsed::Huge => {
                    let big: u64 = (buf.len() - (e + 2)) as u64 + 1;
                    proof {
                        let nn = choose|v: int| parse_len(s.subrange(pos as int + 1, e as int))
                            == Some(v) && v > u64::MAX as int;
                        lemma_pairs_oversized(s, e as int + 2, nn, big as int);
                    }
                    let out = decode_pairs(buf, e + 2, big);
                    match out {
                        PairsDecoded::Done(ps, end2) => Decoded::Complete(Frame::Table(ps), end2),
                        PairsDecoded::More => Decoded::Incomplete,
                        PairsDecoded::Bad(k) => Decoded::Fail(k),
                    }
                },
            },
        }
    } else {
        Decoded::Fail(ProtocolError::BadTag)
    }
}

/// Decode `n` frames one after another.
fn decode_elems(buf: &Vec<u8>, pos: usize, n: u64) -> (r: ElemsDecoded)
    requires
        pos <= buf.len(),
    ensures
        r@ == spec_decode_elems(buf@, pos as int, n as int),
    decreases buf.len() - pos, 1int, n as int,
{
    broadcast use crate::frame::lemma_frames_view;

    if n == 0 {
        let out = ElemsDecoded::Done(Vec::new(), pos);
        assert(crate::frame::frames_view(Seq::<Frame>::empty()) =~= Seq::<FrameModel>::empty());
        assert(out@ =~= spec_decode_elems(buf@, pos as int, n as int));
        return out;
    }
    match decode_at(buf, pos) {
        Decoded::Incomplete => ElemsDecoded::More,
        Decoded::Fail(k) => ElemsDecoded::Bad(k),
        Decoded::Complete(f, end) => {
            if pos < end && end <= buf.len() {
                match decode_elems(buf, end, n - 1) {
                    ElemsDecoded::Done(rest, end2) => {
                        let ghost prev = rest@;
                        let mut rest = rest;
                        rest.insert(0, f);
                        proof {
                            assert(rest@ =~= seq![f].add(prev));
                            assert forall|i: int|
                                0 <= i < rest@.len() implies #[trigger] crate::frame::frames_view(
                                rest@,
                            )[i] == (seq![f@] + crate::frame::frames_view(prev))[i] by {
                                if i > 0 {
                                    assert(rest@[i] == prev[i - 1]);
                                }
                            }
                            assert(crate::frame::frames_view(rest@) =~= seq![f@]
                                + crate::frame::frames_view(prev));
                        }
                        ElemsDecoded::Done(rest, end2)
                    },
                    ElemsDecoded::More => ElemsDecoded::More,
                    ElemsDecoded::Bad(k) => ElemsDecoded::Bad(k),
                }
            } else {
                ElemsDecoded::More
            }
        },
    }
}

/// Decode `n` key/value pairs, each a simple-string key then a value frame.
fn decode_pairs(buf: &Vec<u8>, pos: usize, n: u64) -> (r: PairsDecoded)
    requires
        pos <= buf.len(),
    ensures
        r@ == spec_decode_pairs(buf@, pos as int, n as int),
    decreases buf.len() - pos, 1int, n as int,
{
    broadcast use crate::frame::lemma_pairs_view;

    if n == 0 {
        let out = PairsDecoded::Done(Vec::new(), pos);
        assert(crate::frame::pairs_view(Seq::<(Vec<u8>, Frame)>::empty()) =~= Seq::<
            (Seq<u8>, FrameModel),
        >::empty());
        assert(out@ =~= spec_decode_pairs(buf@, pos as int, n as int));
        return out;
    }
    match decode_at(buf, pos) {
        Decoded::Incomplete => PairsDecoded::More,
        Decoded::Fail(k) => PairsDecoded::Bad(k),
        Decoded::Complete(kf, kend) => {
            if kend > pos && kend <= buf.len() {
                match kf {
                    Frame::SimpleString(kb) => {
                        match decode_at(buf, kend) {
                            Decoded::Incomplete => PairsDecoded::More,
                            Decoded::Fail(k) => PairsDecoded::Bad(k),
                            Decoded::Complete(vf, vend) => {
                                if vend > kend && vend <= buf.len() {
                                    match decode_pairs(buf, vend, n - 1) {
                                        PairsDecoded::Done(rest, end2) => {
                                            let ghost prev = rest@;
                                            let ghost kbg = kb@;
                                            let ghost vfg = vf@;
                                            let mut rest = rest;
                                            rest.insert(0, (kb, vf));
                                            proof {
                                                assert forall|i: int|
                                                    0 <= i < rest@.len() implies #[trigger] crate::frame::pairs_view(
                                                    rest@,
                                                )[i] == (seq![(kbg, vfg)]
                                                    + crate::frame::pairs_view(prev))[i] by {
                                                    if i > 0 {
                                                        assert(rest@[i] == prev[i - 1]);
                                                    } else {
                                                        assert(rest@[0] == (kb, vf));
                                                    }
                                                }
                                                assert(crate::frame::pairs_view(rest@)
                                                    =~= seq![(kbg, vfg)]
                                                    + crate::frame::pairs_view(prev));
                                            }
                                            PairsDecoded::Done(rest, end2)
                                        },
                                        PairsDecoded::More => PairsDecoded::More,
                                        PairsDecoded::Bad(k) => PairsDecoded::Bad(k),
                                    }
                                } else {
                                    PairsDecoded::More
                                }
                            },
                        }
                    },
                    _ => PairsDecoded::Bad(ProtocolError::BadTableKey),
                }
            } else {
                PairsDecoded::More
            }
        },
    }
}

/// Decode the frame at the start of the buffer, if it is fully present.
/// Nothing is consumed: on `Complete(f, n)` the caller drains `n` bytes; on
/// `Incomplete` it accumulates more bytes and calls again; on `Fail` the
/// framing is beyond recovery and the session must end.
pub fn decode(buf: &Vec<u8>) -> (r: Decoded)
    ensures
        r@ == spec_decode(buf@),
{
    decode_at(buf, 0)
}


} // verus!
