//! The notation grammar: every non-overlapping `digit+ "d" digit+` token,
//! scanned left to right over the bytes of the input.

use vstd::prelude::*;
use vstd::string::StringSliceAdditionalSpecFns;

verus! {

/// One parsed token: roll `num` dice with `dice` faces each.
#[derive(Debug, Clone, Copy, PartialEq, Eq, Structural)]
pub struct RollInstructions {
    pub num: i32,
    pub dice: i32,
}

/// Why a roll was refused.
#[derive(Debug, PartialEq, Eq)]
pub enum RollError {
    /// No token was found, or a number in a token does not fit; holds the input.
    InvalidFormat(String),
    /// A token asks for no dice at all, or for dice without faces.
    InstructionCountTooLow,
    /// A token asks for more than `MAX_DICE` dice.
    InstructionCountTooHigh,
    /// The total of the roll does not fit in an `i32`.
    ResultOverflow,
}

impl RollError {
    /// A message for the person who wrote the notation.
    pub fn message(&self) -> (r: &'static str)
        ensures
            self is InvalidFormat ==> r@ == "Invalid format. Try again with something like 1d20 or 3d6."@,
            self is InstructionCountTooLow ==> r@ == "You have to roll something!"@,
            self is InstructionCountTooHigh ==> r@
                == "Are you a god in this game?! Roll a more reasonable number of dice!"@,
            self is ResultOverflow ==> r@ == "The total of this roll is too large."@,
    {
        match self {
            RollError::InvalidFormat(_) => "Invalid format. Try again with something like 1d20 or 3d6.",
            RollError::InstructionCountTooLow => "You have to roll something!",
            RollError::InstructionCountTooHigh => "Are you a god in this game?! Roll a more reasonable number of dice!",
            RollError::ResultOverflow => "The total of this roll is too large.",
        }
    }
}

/// An ASCII decimal digit.
pub open spec fn is_digit(b: u8) -> bool {
    48 <= b <= 57
}

/// The end of the run of ASCII digits that starts at `i`.
pub open spec fn digit_run_end(s: Seq<u8>, i: int) -> int
    decreases s.len() - i,
{
    if 0 <= i < s.len() && is_digit(s[i]) {
        digit_run_end(s, i + 1)
    } else {
        i
    }
}

/// The decimal value of a sequence of ASCII digits.
pub open spec fn digits_value(d: Seq<u8>) -> int
    decreases d.len(),
{
    if d.len() == 0 {
        0
    } else {
        digits_value(d.drop_last()) * 10 + (d.last() - 48)
    }
}

/// The (count, faces) pairs of the tokens found at or after position `i`.
pub open spec fn tokens_from(s: Seq<u8>, i: int) -> Seq<(int, int)>
    decreases s.len() - i,
{
    if i < 0 || i >= s.len() {
        Seq::empty()
    } else if !is_digit(s[i]) {
        tokens_from(s, i + 1)
    } else {
        proof {
            lemma_digit_run_end_bounds(s, i);
        }
        let j = digit_run_end(s, i);
        if j + 1 < s.len() && s[j] == 100u8 && is_digit(s[j + 1]) {
            proof {
                lemma_digit_run_end_bounds(s, j + 1);
            }
            let k = digit_run_end(s, j + 1);
            seq![(digits_value(s.subrange(i, j)), digits_value(s.subrange(j + 1, k)))]
                + tokens_from(s, k)
        } else {
            tokens_from(s, j)
        }
    }
}

/// The tokens of a whole notation, in order of appearance.
pub open spec fn notation_tokens(s: Seq<u8>) -> Seq<(int, int)> {
    tokens_from(s, 0)
}

/// A notation parses when it holds a token and every number in it fits an `i32`.
pub open spec fn parses(s: Seq<u8>) -> bool {
    let t = notation_tokens(s);
    &&& t.len() > 0
    &&& forall|k: int| 0 <= k < t.len() ==> t[k].0 <= i32::MAX && t[k].1 <= i32::MAX
}

/// The (count, faces) pairs of a sequence of instructions.
pub open spec fn instructions_view(v: Seq<RollInstructions>) -> Seq<(int, int)> {
    v.map_values(|r: RollInstructions| (r.num as int, r.dice as int))
}

/// A run of digits ends within the sequence, holds only digits, and stops
/// at a byte that is not a digit.
pub proof fn lemma_digit_run_end_bounds(s: Seq<u8>, i: int)
    requires
        0 <= i <= s.len(),
    ensures
        i <= digit_run_end(s, i) <= s.len(),
        forall|k: int| i <= k < digit_run_end(s, i) ==> is_digit(#[trigger] s[k]),
        digit_run_end(s, i) < s.len() ==> !is_digit(s[digit_run_end(s, i)]),
    decreases s.len() - i,
{
    if i < s.len() && is_digit(s[i]) {
        lemma_digit_run_end_bounds(s, i + 1);
    }
}

proof fn lemma_digits_value_nonneg(d: Seq<u8>)
    requires
        forall|k: int| 0 <= k < d.len() ==> is_digit(#[trigger] d[k]),
    ensures
        digits_value(d) >= 0,
    decreases d.len(),
{
    if d.len() > 0 {
        lemma_digits_value_nonneg(d.drop_last());
    }
}

/// Reads the run of digits that starts at `i`: its end, and its value where
/// that fits an `i32`.
fn read_number(b: &[u8], i: usize) -> (r: (usize, Option<i32>))
    requires
        i <= b@.len(),
    ensures
        r.0 as int == digit_run_end(b@, i as int),
        match r.1 {
            Some(v) => v as int == digits_value(b@.subrange(i as int, r.0 as int)),
            None => digits_value(b@.subrange(i as int, r.0 as int)) > i32::MAX,
        },
{
    let mut p: usize = i;
    let mut v: i32 = 0;
    let mut overflow: bool = false;
    proof {
        lemma_digit_run_end_bounds(b@, i as int);
    }
    while p < b.len() && b[p] >= 48 && b[p] <= 57
        invariant
            i <= p <= digit_run_end(b@, i as int),
            digit_run_end(b@, i as int) <= b@.len(),
            digit_run_end(b@, p as int) == digit_run_end(b@, i as int),
            forall|k: int| i <= k < digit_run_end(b@, i as int) ==> is_digit(#[trigger] b@[k]),
            !overflow ==> v as int == digits_value(b@.subrange(i as int, p as int)),
            !overflow ==> v >= 0,
            overflow ==> digits_value(b@.subrange(i as int, p as int)) > i32::MAX,
        decreases b@.len() - p,
    {
        let ghost before = b@.subrange(i as int, p as int);
        let ghost after = b@.subrange(i as int, p + 1);
        assert(after.drop_last() =~= before);
        proof {
            lemma_digits_value_nonneg(before);
            lemma_digit_run_end_bounds(b@, p + 1);
        }
        let d: i32 = (b[p] - 48) as i32;
        if !overflow {
            if v > (i32::MAX - d) / 10 {
                overflow = true;
            } else {
                v = v * 10 + d;
            }
        }
        p = p + 1;
    }
    if overflow {
        (p, None)
    } else {
        (p, Some(v))
    }
}

/// The error for a notation that does not parse, holding the notation.
pub open spec fn is_invalid_format_of(e: RollError, cmd: Seq<char>) -> bool {
    match e {
        RollError::InvalidFormat(s) => s@ == cmd,
        _ => false,
    }
}

/// Extracts one instruction per `NdM` token of `cmd`, in order of appearance.
/// Text between tokens is ignored. Fails with `InvalidFormat` when there is no
/// token, or when a number in a token does not fit an `i32`.
pub fn parse_roll(cmd: &str) -> (r: Result<Vec<RollInstructions>, RollError>)
    ensures
        match r {
            Ok(v) => parses(cmd.spec_bytes()) && instructions_view(v@) == notation_tokens(
                cmd.spec_bytes(),
            ),
            Err(e) => !parses(cmd.spec_bytes()) && is_invalid_format_of(e, cmd@),
        },
{
    let b = cmd.as_bytes();
    let ghost s = b@;
    let mut out: Vec<RollInstructions> = Vec::new();
    let mut i: usize = 0;
    while i < b.len()
        invariant
            s == b@,
            s == cmd.spec_bytes(),
            i <= s.len(),
            instructions_view(out@) + tokens_from(s, i as int) == notation_tokens(s),
            forall|k: int|
                0 <= k < out@.len() ==> #[trigger] out@[k].num >= 0 && out@[k].dice >= 0,
        decreases s.len() - i,
    {
        if !(b[i] >= 48 && b[i] <= 57) {
            i = i + 1;
        } else {
            proof {
                lemma_digit_run_end_bounds(s, i as int);
                lemma_digit_run_end_bounds(s, i + 1);
            }
            let (j, count) = read_number(b, i);
            if j < b.len() && j + 1 < b.len() && b[j] == 100u8 && b[j + 1] >= 48 && b[j + 1] <= 57 {
                proof {
                    lemma_digit_run_end_bounds(s, j + 1);
                    lemma_digits_value_nonneg(s.subrange(i as int, j as int));
                    lemma_digits_value_nonneg(s.subrange(j + 1, digit_run_end(s, j + 1)));
                }
                let (k, faces) = read_number(b, j + 1);
                let ghost tok = (
                    digits_value(s.subrange(i as int, j as int)),
                    digits_value(s.subrange(j + 1, k as int)),
                );
                assert(tokens_from(s, i as int) == seq![tok] + tokens_from(s, k as int));
                match (count, faces) {
                    (Some(c), Some(f)) => {
                        let ghost prev = out@;
                        out.push(RollInstructions { num: c, dice: f });
                        assert(instructions_view(out@) =~= instructions_view(prev).push(tok));
                        assert(instructions_view(out@) + tokens_from(s, k as int) =~= instructions_view(prev) + (seq![tok] + tokens_from(s, k as int)));
                        i = k;
                    },
                    _ => {
                        let ghost t = notation_tokens(s);
                        assert(t[out@.len() as int] == tok);
                        return Err(RollError::InvalidFormat(cmd.to_owned()));
                    },
                }
            } else {
                i = j;
            }
        }
    }
    if out.len() == 0 {
        assert(notation_tokens(s) =~= instructions_view(out@));
        Err(RollError::InvalidFormat(cmd.to_owned()))
    } else {
        proof {
            assert(notation_tokens(s) =~= instructions_view(out@));
            assert forall|k: int| 0 <= k < notation_tokens(s).len() implies notation_tokens(s)[k].0
                <= i32::MAX && notation_tokens(s)[k].1 <= i32::MAX by {
                assert(notation_tokens(s)[k] == instructions_view(out@)[k]);
            }
        }
        Ok(out)
    }
}

} // verus!
