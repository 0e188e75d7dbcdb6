//! Byte-string utilities the command and store layers build on: equality,
//! lexicographic order, ASCII case folding, and UTF-8 well-formedness.

use vstd::prelude::*;

verus! {

/// Exact byte equality.
pub fn bytes_eq(a: &Vec<u8>, b: &Vec<u8>) -> (r: bool)
    ensures
        r == (a@ == b@),
{
    if a.len() != b.len() {
        return false;
    }
    let mut i: usize = 0;
    while i < a.len()
        invariant
            i <= a.len(),
            a.len() == b.len(),
            forall|j: int| 0 <= j < i ==> a@[j] == b@[j],
        decreases a.len() - i,
    {
        if a[i] != b[i] {
            return false;
        }
        i = i + 1;
    }
    proof {
        assert(a@ =~= b@);
    }
    true
}

/// An owned copy of a byte string.
pub fn copy_bytes(a: &Vec<u8>) -> (r: Vec<u8>)
    ensures
        r@ == a@,
{
    let mut out: Vec<u8> = Vec::new();
    let mut i: usize = 0;
    while i < a.len()
        invariant
            i <= a.len(),
            out@ == a@.take(i as int),
        decreases a.len() - i,
    {
        out.push(a[i]);
        assert(out@ =~= a@.take(i as int + 1));
        i = i + 1;
    }
    assert(a@.take(a@.len() as int) =~= a@);
    out
}

/// Strict lexicographic order on byte strings: the order `str` and a sorted
/// map over text keys use.
pub open spec fn bytes_lt(a: Seq<u8>, b: Seq<u8>) -> bool
    decreases a.len(),
{
    if b.len() == 0 {
        false
    } else if a.len() == 0 {
        true
    } else if a[0] < b[0] {
        true
    } else if a[0] > b[0] {
        false
    } else {
        bytes_lt(a.drop_first(), b.drop_first())
    }
}

/// The order is irreflexive.
pub proof fn lemma_bytes_lt_irrefl(a: Seq<u8>)
    ensures
        !bytes_lt(a, a),
    decreases a.len(),
{
    if a.len() > 0 {
        lemma_bytes_lt_irrefl(a.drop_first());
    }
}

/// Strict order is transitive.
pub proof fn lemma_bytes_lt_trans(a: Seq<u8>, b: Seq<u8>, c: Seq<u8>)
    requires
        bytes_lt(a, b),
        bytes_lt(b, c),
    ensures
        bytes_lt(a, c),
    decreases a.len() + b.len() + c.len(),
{
    if a.len() == 0 {
    } else {
        assert(b.len() > 0 && c.len() > 0);
        if a[0] < b[0] {
            if b[0] < c[0] {
            } else {
                assert(b[0] == c[0]);
            }
        } else {
            assert(a[0] == b[0]);
            if b[0] < c[0] {
            } else {
                assert(b[0] == c[0]);
                lemma_bytes_lt_trans(a.drop_first(), b.drop_first(), c.drop_first());
            }
        }
    }
}

/// Comparing past a common prefix compares the remainders.
pub proof fn lemma_bytes_lt_skip(a: Seq<u8>, b: Seq<u8>, i: int)
    requires
        0 <= i <= a.len(),
        i <= b.len(),
        forall|j: int| 0 <= j < i ==> a[j] == b[j],
    ensures
        bytes_lt(a, b) == bytes_lt(a.skip(i), b.skip(i)),
    decreases i,
{
    if i > 0 {
        assert(a.len() > 0 && b.len() > 0);
        assert(a[0] == b[0]);
        assert(a.drop_first() =~= a.skip(1));
        assert(b.drop_first() =~= b.skip(1));
        lemma_bytes_lt_skip(a.skip(1), b.skip(1), i - 1);
        assert(a.skip(1).skip(i - 1) =~= a.skip(i));
        assert(b.skip(1).skip(i - 1) =~= b.skip(i));
    } else {
        assert(a.skip(0) =~= a);
        assert(b.skip(0) =~= b);
    }
}

/// Three-way comparison result for byte strings.
#[derive(Debug, Clone, Copy, PartialEq, Eq)]
pub enum KeyOrder {
    Less,
    Equal,
    Greater,
}

/// Three-way lexicographic comparison.
pub fn bytes_cmp(a: &Vec<u8>, b: &Vec<u8>) -> (r: KeyOrder)
    ensures
        r is Less ==> bytes_lt(a@, b@),
        r is Equal ==> a@ == b@,
        r is Greater ==> bytes_lt(b@, a@),
{
    let mut i: usize = 0;
    while i < a.len() && i < b.len()
        invariant
            i <= a.len(),
            i <= b.len(),
            forall|j: int| 0 <= j < i ==> a@[j] == b@[j],
        decreases a.len() - i,
    {
        if a[i] < b[i] {
            proof {
                lemma_bytes_lt_skip(a@, b@, i as int);
            }
            return KeyOrder::Less;
        }
        if a[i] > b[i] {
            proof {
                lemma_bytes_lt_skip(b@, a@, i as int);
            }
            return KeyOrder::Greater;
        }
        i = i + 1;
    }
    if a.len() == b.len() {
        proof {
            assert(a@ =~= b@);
        }
        KeyOrder::Equal
    } else if a.len() < b.len() {
        proof {
            lemma_bytes_lt_skip(a@, b@, a@.len() as int);
            assert(a@.skip(a@.len() as int).len() == 0);
        }
        KeyOrder::Less
    } else {
        proof {
            lemma_bytes_lt_skip(b@, a@, b@.len() as int);
            assert(b@.skip(b@.len() as int).len() == 0);
        }
        KeyOrder::Greater
    }
}

/// ASCII lower-casing of one byte.
pub open spec fn lower_byte(b: u8) -> u8 {
    if 65 <= b <= 90 {
        (b + 32) as u8
    } else {
        b
    }
}

/// ASCII lower-casing of a byte string, the sense in which command names are
/// compared case-insensitively.
pub open spec fn lower(s: Seq<u8>) -> Seq<u8> {
    Seq::new(s.len(), |i: int| lower_byte(s[i]))
}

/// Lower-case one byte.
pub fn to_lower_byte(b: u8) -> (r: u8)
    ensures
        r == lower_byte(b),
{
    if 65 <= b && b <= 90 {
        b + 32
    } else {
        b
    }
}

/// `utf8_width(s, i)` is the byte width of the well-formed UTF-8 sequence
/// beginning at `i`, or 0 when none begins there — written as the table of
/// well-formed byte ranges from the Unicode standard, so overlong forms and
/// surrogates are excluded.
pub open spec fn utf8_width(s: Seq<u8>, i: int) -> int {
    if !(0 <= i < s.len()) {
        0
    } else if s[i] <= 0x7f {
        1
    } else if 0xc2 <= s[i] <= 0xdf {
        if i + 1 < s.len() && 0x80 <= s[i + 1] <= 0xbf {
            2
        } else {
            0
        }
    } else if s[i] == 0xe0 {
        if i + 2 < s.len() && 0xa0 <= s[i + 1] <= 0xbf && 0x80 <= s[i + 2] <= 0xbf {
            3
        } else {
            0
        }
    } else if 0xe1 <= s[i] <= 0xec || s[i] == 0xee || s[i] == 0xef {
        if i + 2 < s.len() && 0x80 <= s[i + 1] <= 0xbf && 0x80 <= s[i + 2] <= 0xbf {
            3
        } else {
            0
        }
    } else if s[i] == 0xed {
        if i + 2 < s.len() && 0x80 <= s[i + 1] <= 0x9f && 0x80 <= s[i + 2] <= 0xbf {
            3
        } else {
            0
        }
    } else if s[i] == 0xf0 {
        if i + 3 < s.len() && 0x90 <= s[i + 1] <= 0xbf && 0x80 <= s[i + 2] <= 0xbf && 0x80 <= s[i
            + 3] <= 0xbf {
            4
        } else {
            0
        }
    } else if 0xf1 <= s[i] <= 0xf3 {
        if i + 3 < s.len() && 0x80 <= s[i + 1] <= 0xbf && 0x80 <= s[i + 2] <= 0xbf && 0x80 <= s[i
            + 3] <= 0xbf {
            4
        } else {
            0
        }
    } else if s[i] == 0xf4 {
        if i + 3 < s.len() && 0x80 <= s[i + 1] <= 0x8f && 0x80 <= s[i + 2] <= 0xbf && 0x80 <= s[i
            + 3] <= 0xbf {
            4
        } else {
            0
        }
    } else {
        0
    }
}

/// Well-formed UTF-8 from `i` to the end of the string.
pub open spec fn is_text_from(s: Seq<u8>, i: int) -> bool
    decreases s.len() - i,
{
    if i >= s.len() {
        true
    } else if 0 <= i && 1 <= utf8_width(s, i) <= s.len() - i {
        is_text_from(s, i + utf8_width(s, i))
    } else {
        false
    }
}

/// Well-formed UTF-8: what a key or field must satisfy to count as text.
pub open spec fn is_text(s: Seq<u8>) -> bool {
    is_text_from(s, 0)
}

/// Decide UTF-8 well-formedness.
pub fn check_text(b: &Vec<u8>) -> (r: bool)
    ensures
        r == is_text(b@),
{
    let mut i: usize = 0;
    while i < b.len()
        invariant
            i <= b.len(),
            is_text(b@) == is_text_from(b@, i as int),
        decreases b.len() - i,
    {
        let c = b[i];
        let w: usize = if c <= 0x7f {
            1
        } else if 0xc2 <= c && c <= 0xdf {
            if b.len() - i > 1 && 0x80 <= b[i + 1] && b[i + 1] <= 0xbf {
                2
            } else {
                0
            }
        } else if c == 0xe0 {
            if b.len() - i > 2 && 0xa0 <= b[i + 1] && b[i + 1] <= 0xbf && 0x80 <= b[i + 2] && b[i
                + 2] <= 0xbf {
                3
            } else {
                0
            }
        } else if (0xe1 <= c && c <= 0xec) || c == 0xee || c == 0xef {
            if b.len() - i > 2 && 0x80 <= b[i + 1] && b[i + 1] <= 0xbf && 0x80 <= b[i + 2] && b[i
                + 2] <= 0xbf {
                3
            } else {
                0
            }
        } else if c == 0xed {
            if b.len() - i > 2 && 0x80 <= b[i + 1] && b[i + 1] <= 0x9f && 0x80 <= b[i + 2] && b[i
                + 2] <= 0xbf {
                3
            } else {
                0
            }
        } else if c == 0xf0 {
            if b.len() - i > 3 && 0x90 <= b[i + 1] && b[i + 1] <= 0xbf && 0x80 <= b[i + 2] && b[i
                + 2] <= 0xbf && 0x80 <= b[i + 3] && b[i + 3] <= 0xbf {
                4
            } else {
                0
            }
        } else if 0xf1 <= c && c <= 0xf3 {
            if b.len() - i > 3 && 0x80 <= b[i + 1] && b[i + 1] <= 0xbf && 0x80 <= b[i + 2] && b[i
                + 2] <= 0xbf && 0x80 <= b[i + 3] && b[i + 3] <= 0xbf {
                4
            } else {
                0
            }
        } else if c == 0xf4 {
            if b.len() - i > 3 && 0x80 <= b[i + 1] && b[i + 1] <= 0x8f && 0x80 <= b[i + 2] && b[i
                + 2] <= 0xbf && 0x80 <= b[i + 3] && b[i + 3] <= 0xbf {
                4
            } else {
                0
            }
        } else {
            0
        };
        assert(w as int == utf8_width(b@, i as int));
        if w == 0 {
            return false;
        }
        i = i + w;
    }
    true
}

} // verus!
