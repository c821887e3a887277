//! Byte-sequence utilities shared by the text parsers: locating the first
//! and last occurrence of a delimiter byte, and copying a subrange.

use vstd::prelude::*;

verus! {

/// ASCII `0`.
pub const DIGIT_ZERO: u8 = 48;

/// ASCII `5`.
pub const DIGIT_FIVE: u8 = 53;

/// ASCII `9`.
pub const DIGIT_NINE: u8 = 57;

/// ASCII `+`.
pub const PLUS: u8 = 43;

/// ASCII `-`.
pub const MINUS: u8 = 45;

/// ASCII `.`.
pub const DOT: u8 = 46;

/// ASCII `,`.
pub const COMMA: u8 = 44;

/// ASCII `:`.
pub const COLON: u8 = 58;

/// ASCII `\`.
pub const BACKSLASH: u8 = 92;

/// ASCII line feed.
pub const NEWLINE: u8 = 10;

/// ASCII carriage return.
pub const CARRIAGE_RETURN: u8 = 13;

/// ASCII `a`.
pub const LOWER_A: u8 = 97;

/// ASCII `z`.
pub const LOWER_Z: u8 = 122;

/// The distance from an ASCII lowercase letter to its uppercase form.
pub const CASE_GAP: u8 = 32;

/// The index of the first occurrence of `b` in `s`, if any.
pub open spec fn spec_first_ix(s: Seq<u8>, b: u8) -> Option<int>
    decreases s.len(),
{
    if s.len() == 0 {
        None
    } else if s[0] == b {
        Some(0)
    } else {
        match spec_first_ix(s.skip(1), b) {
            Some(i) => Some(i + 1),
            None => None,
        }
    }
}

/// The index of the last occurrence of `b` in `s`, if any.
pub open spec fn spec_last_ix(s: Seq<u8>, b: u8) -> Option<int>
    decreases s.len(),
{
    if s.len() == 0 {
        None
    } else if s[s.len() - 1] == b {
        Some(s.len() - 1)
    } else {
        spec_last_ix(s.drop_last(), b)
    }
}

/// What `spec_first_ix` returns: the position holds `b` and nothing before
/// it does; `None` means `b` does not occur at all.
pub proof fn lemma_first_ix_char(s: Seq<u8>, b: u8)
    ensures
        match spec_first_ix(s, b) {
            Some(i) => 0 <= i < s.len() && s[i] == b && (forall|k: int| 0 <= k < i ==> s[k] != b),
            None => forall|k: int| 0 <= k < s.len() ==> s[k] != b,
        },
    decreases s.len(),
{
    if s.len() > 0 && s[0] != b {
        lemma_first_ix_char(s.skip(1), b);
        match spec_first_ix(s.skip(1), b) {
            Some(i) => {
                assert(s[i + 1] == s.skip(1)[i]);
                assert forall|k: int| 0 <= k < i + 1 implies s[k] != b by {
                    if k > 0 {
                        assert(s.skip(1)[k - 1] == s[k]);
                    }
                }
            },
            None => {
                assert forall|k: int| 0 <= k < s.len() implies s[k] != b by {
                    if k > 0 {
                        assert(s.skip(1)[k - 1] == s[k]);
                    }
                }
            },
        }
    }
}

/// What `spec_last_ix` returns: the position holds `b` and nothing after
/// it does; `None` means `b` does not occur at all.
pub proof fn lemma_last_ix_char(s: Seq<u8>, b: u8)
    ensures
        match spec_last_ix(s, b) {
            Some(i) => 0 <= i < s.len() && s[i] == b && (forall|k: int| i < k < s.len() ==> s[k]
                != b),
            None => forall|k: int| 0 <= k < s.len() ==> s[k] != b,
        },
    decreases s.len(),
{
    if s.len() > 0 && s[s.len() - 1] != b {
        lemma_last_ix_char(s.drop_last(), b);
        assert(forall|k: int| 0 <= k < s.len() - 1 ==> s.drop_last()[k] == s[k]);
    }
}

/// A position that holds `b` with no `b` before it is the first index.
pub proof fn lemma_first_ix_of(s: Seq<u8>, b: u8, p: int)
    requires
        0 <= p < s.len(),
        s[p] == b,
        forall|k: int| 0 <= k < p ==> s[k] != b,
    ensures
        spec_first_ix(s, b) == Some(p),
{
    lemma_first_ix_char(s, b);
}

/// A position that holds `b` with no `b` after it is the last index.
pub proof fn lemma_last_ix_of(s: Seq<u8>, b: u8, p: int)
    requires
        0 <= p < s.len(),
        s[p] == b,
        forall|k: int| p < k < s.len() ==> s[k] != b,
    ensures
        spec_last_ix(s, b) == Some(p),
{
    lemma_last_ix_char(s, b);
}

/// `b` occurs nowhere in `s` exactly when the first index is `None`.
pub proof fn lemma_first_ix_none(s: Seq<u8>, b: u8)
    requires
        forall|k: int| 0 <= k < s.len() ==> s[k] != b,
    ensures
        spec_first_ix(s, b) is None,
{
    lemma_first_ix_char(s, b);
}

/// A copy of `s[a..b]`.
pub fn subvec(s: &Vec<u8>, a: usize, b: usize) -> (r: Vec<u8>)
    requires
        a <= b <= s@.len(),
    ensures
        r@ == s@.subrange(a as int, b as int),
{
    let mut r: Vec<u8> = Vec::new();
    let mut i: usize = a;
    while i < b
        invariant
            a <= i <= b <= s@.len(),
            r@ == s@.subrange(a as int, i as int),
        decreases b - i,
    {
        r.push(s[i]);
        proof {
            assert(s@.subrange(a as int, i + 1 as int) =~= s@.subrange(a as int, i as int).push(
                s@[i as int],
            ));
        }
        i = i + 1;
    }
    r
}

} // verus!
