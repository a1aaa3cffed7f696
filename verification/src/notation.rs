//! The dice-notation grammar and its parser.
//!
//! Two forms are accepted: the full form `<digits>d<digits>` ("3d6") and the
//! shorthand `<digits>` ("20", one die with that many sides). Counts are read
//! as 32-bit unsigned values; a literal that is zero or does not fit is
//! rejected as invalid notation rather than wrapped or saturated.

use vstd::prelude::*;
use crate::{DiceError, DiceRoll};

verus! {

/// An ASCII decimal digit.
pub open spec fn is_digit(c: char) -> bool {
    '0' as u32 <= c as u32 && c as u32 <= '9' as u32
}

/// The numeric value of one digit character.
pub open spec fn digit_val(c: char) -> int {
    c as u32 - '0' as u32
}

/// A non-empty run of digits.
pub open spec fn is_digit_seq(s: Seq<char>) -> bool {
    s.len() >= 1 && forall|i: int| 0 <= i < s.len() ==> is_digit(#[trigger] s[i])
}

/// The number a run of digits denotes, read left to right.
pub open spec fn digits_value(s: Seq<char>) -> int
    decreases s.len(),
{
    if s.len() == 0 {
        0
    } else {
        10 * digits_value(s.drop_last()) + digit_val(s.last())
    }
}

/// `s` splits at `i` into digits, the letter `d`, and digits again.
pub open spec fn is_split_at(s: Seq<char>, i: int) -> bool {
    &&& 0 <= i < s.len()
    &&& s[i] == 'd'
    &&& is_digit_seq(s.take(i))
    &&& is_digit_seq(s.skip(i + 1))
}

/// `s` matches the full form `<digits>d<digits>`.
pub open spec fn is_full_form(s: Seq<char>) -> bool {
    exists|i: int| is_split_at(s, i)
}

/// The position of the `d` separator of a full-form notation.
pub open spec fn full_split(s: Seq<char>) -> int {
    choose|i: int| is_split_at(s, i)
}

/// How many dice `s` denotes: the first group of a full form, one otherwise.
pub open spec fn notation_dice(s: Seq<char>) -> int {
    if is_full_form(s) {
        digits_value(s.take(full_split(s)))
    } else {
        1
    }
}

/// How many sides `s` denotes: the second group of a full form, the whole
/// literal otherwise.
pub open spec fn notation_sides(s: Seq<char>) -> int {
    if is_full_form(s) {
        digits_value(s.skip(full_split(s) + 1))
    } else {
        digits_value(s)
    }
}

/// `s` is accepted: it matches one of the two grammar forms and both counts
/// are at least one and fit in 32 bits.
pub open spec fn valid_notation(s: Seq<char>) -> bool {
    &&& is_full_form(s) || is_digit_seq(s)
    &&& 1 <= notation_dice(s) <= u32::MAX
    &&& 1 <= notation_sides(s) <= u32::MAX
}

/// A full-form notation splits at exactly one position.
proof fn lemma_split_unique(s: Seq<char>, i: int, j: int)
    requires
        is_split_at(s, i),
        is_split_at(s, j),
    ensures
        i == j,
{
    if i < j {
        assert(s.skip(i + 1)[j - i - 1] == 'd');
        assert(is_digit('d') == false);
    }
    if j < i {
        assert(s.skip(j + 1)[i - j - 1] == 'd');
        assert(is_digit('d') == false);
    }
}

/// If the first `d` of `s` stands at `p`, a full form can split only there.
proof fn lemma_first_d_split(s: Seq<char>, p: int)
    requires
        0 <= p < s.len(),
        s[p] == 'd',
        forall|j: int| 0 <= j < p ==> s[j] != 'd',
    ensures
        is_full_form(s) ==> full_split(s) == p,
{
    if is_full_form(s) {
        let i = full_split(s);
        assert(is_split_at(s, i));
        if i > p {
            assert(s.take(i)[p] == 'd');
            assert(is_digit('d') == false);
        }
        assert(i == p);
    }
}

/// A run of digits denotes a non-negative number.
proof fn lemma_digits_value_nonneg(s: Seq<char>)
    requires
        forall|i: int| 0 <= i < s.len() ==> is_digit(#[trigger] s[i]),
    ensures
        digits_value(s) >= 0,
    decreases s.len(),
{
    if s.len() > 0 {
        lemma_digits_value_nonneg(s.drop_last());
    }
}

/// Reading one more digit multiplies the value so far by ten and adds it.
proof fn lemma_digits_value_extend(s: Seq<char>, i: int)
    requires
        0 <= i < s.len(),
    ensures
        digits_value(s.take(i + 1)) == 10 * digits_value(s.take(i)) + digit_val(s[i]),
{
    assert(s.take(i + 1).drop_last() =~= s.take(i));
    assert(s.take(i + 1).last() == s[i]);
}

/// A digit run denotes at least as much as any of its prefixes.
proof fn lemma_digits_value_prefix_le(s: Seq<char>, i: int)
    requires
        0 <= i <= s.len(),
        forall|j: int| 0 <= j < s.len() ==> is_digit(#[trigger] s[j]),
    ensures
        digits_value(s.take(i)) <= digits_value(s),
    decreases s.len() - i,
{
    if i == s.len() {
        assert(s.take(i) =~= s);
    } else {
        lemma_digits_value_extend(s, i);
        assert(forall|j: int| 0 <= j < s.take(i).len() ==> is_digit(#[trigger] s.take(i)[j]));
        lemma_digits_value_nonneg(s.take(i));
        lemma_digits_value_prefix_le(s, i + 1);
    }
}

/// Reads `s[start..end]` as a 32-bit count: `Some` exactly when that range is
/// a non-empty digit run whose value is between one and `u32::MAX`.
fn parse_count(s: &str, start: usize, end: usize) -> (r: Option<u32>)
    requires
        start <= end <= s@.len(),
    ensures
        r is Some <==> is_digit_seq(s@.subrange(start as int, end as int)) && 1 <= digits_value(
            s@.subrange(start as int, end as int),
        ) <= u32::MAX,
        r matches Some(v) ==> v as int == digits_value(s@.subrange(start as int, end as int)),
{
    let ghost sub = s@.subrange(start as int, end as int);
    if start == end {
        return None;
    }
    let mut acc: u64 = 0;
    let mut j: usize = start;
    while j < end
        invariant
            start <= j <= end <= s@.len(),
            sub == s@.subrange(start as int, end as int),
            acc as int == digits_value(s@.subrange(start as int, end as int).take(j - start)),
            acc <= u32::MAX,
            forall|q: int| 0 <= q < j - start ==> is_digit(
                #[trigger] s@.subrange(start as int, end as int)[q],
            ),
        decreases end - j,
    {
        let c = s.get_char(j);
        let u = c as u32;
        if u < '0' as u32 || u > '9' as u32 {
            assert(!is_digit(sub[j - start]));
            return None;
        }
        let d = (u - '0' as u32) as u64;
        proof {
            lemma_digits_value_extend(sub, j - start);
        }
        acc = acc * 10 + d;
        if acc > u32::MAX as u64 {
            proof {
                if is_digit_seq(sub) {
                    lemma_digits_value_prefix_le(sub, j - start + 1);
                }
            }
            return None;
        }
        j = j + 1;
    }
    proof {
        assert(sub.take(end - start) =~= sub);
    }
    if acc == 0 {
        return None;
    }
    Some(acc as u32)
}

/// The grammar's error, with a hint at the accepted forms.
fn invalid_notation_error() -> (e: DiceError)
    ensures
        e is InvalidNotation,
{
    DiceError::InvalidNotation("Use format like '5d6' or just '20' for 1d20".to_owned())
}

/// Parses dice notation such as `"5d6"`, or `"20"` for one twenty-sided die.
///
/// Succeeds exactly on the strings `valid_notation` accepts, echoing the
/// input verbatim in the descriptor; every other string is rejected with
/// `DiceError::InvalidNotation`.
pub fn parse_dice_notation(notation: &str) -> (res: Result<DiceRoll, DiceError>)
    ensures
        res is Ok <==> valid_notation(notation@),
        res matches Ok(d) ==> {
            &&& d.num_dice as int == notation_dice(notation@)
            &&& d.num_sides as int == notation_sides(notation@)
            &&& d.notation@ == notation@
            &&& d.num_dice >= 1
            &&& d.num_sides >= 1
        },
        res matches Err(e) ==> e is InvalidNotation,
{
    let len = notation.unicode_len();
    let mut i: usize = 0;
    let mut dpos: usize = 0;
    let mut found = false;
    while i < len
        invariant
            i <= len,
            len == notation@.len(),
            found ==> dpos < i && notation@[dpos as int] == 'd' && forall|j: int|
                0 <= j < dpos ==> notation@[j] != 'd',
            !found ==> forall|j: int| 0 <= j < i ==> notation@[j] != 'd',
        decreases len - i,
    {
        let c = notation.get_char(i);
        if !found && c == 'd' {
            dpos = i;
            found = true;
        }
        i = i + 1;
    }
    if found {
        proof {
            lemma_first_d_split(notation@, dpos as int);
        }
        let num_dice = parse_count(notation, 0, dpos);
        let num_sides = parse_count(notation, dpos + 1, len);
        proof {
            assert(notation@.subrange(0, dpos as int) =~= notation@.take(dpos as int));
            assert(notation@.subrange(dpos + 1, len as int) =~= notation@.skip(dpos + 1));
            assert(!is_digit('d'));
            assert(!is_digit_seq(notation@));
        }
        match (num_dice, num_sides) {
            (Some(n), Some(m)) => {
                proof {
                    assert(is_split_at(notation@, dpos as int));
                    lemma_split_unique(
                        notation@,
                        dpos as int,
                        choose|q: int| is_split_at(notation@, q),
                    );
                }
                Ok(DiceRoll { num_dice: n, num_sides: m, notation: notation.to_owned() })
            },
            _ => {
                proof {
                    if is_full_form(notation@) {
                        assert(is_split_at(notation@, full_split(notation@)));
                    }
                }
                Err(invalid_notation_error())
            },
        }
    } else {
        proof {
            if is_full_form(notation@) {
                assert(is_split_at(notation@, full_split(notation@)));
            }
            assert(notation@.subrange(0, len as int) =~= notation@);
        }
        match parse_count(notation, 0, len) {
            Some(m) => Ok(
                DiceRoll { num_dice: 1, num_sides: m, notation: notation.to_owned() },
            ),
            None => Err(invalid_notation_error()),
        }
    }
}

} // verus!
