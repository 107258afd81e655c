//! Validation of parsed instructions and the random evaluation of a roll.

use rand::rngs::ThreadRng;
use rand::Rng;
use vstd::prelude::*;
use vstd::string::StringSliceAdditionalSpecFns;

use crate::notation::{
    instructions_view, is_invalid_format_of, notation_tokens, parse_roll, parses,
    RollError, RollInstructions,
};

verus! {

/// The largest number of dice a single token may ask for.
pub const MAX_DICE: i32 = 99;

/// One rolled die: its number of faces and the face that came up.
#[derive(Debug, Clone, Copy, PartialEq, Eq, Structural)]
pub struct DiceResult {
    pub dice: i32,
    pub value: i32,
}

/// The outcome of a whole notation: the notation itself, every die in order,
/// and the sum of their values.
#[derive(Debug)]
pub struct RollResult {
    pub instruction: String,
    pub rolls: Vec<DiceResult>,
    pub total: i32,
}

/// The error that a single (count, faces) instruction raises, if any.
pub open spec fn instruction_error(t: (int, int)) -> Option<RollError> {
    if t.0 < 1 {
        Some(RollError::InstructionCountTooLow)
    } else if t.0 > MAX_DICE {
        Some(RollError::InstructionCountTooHigh)
    } else if t.1 < 1 {
        Some(RollError::InstructionCountTooLow)
    } else {
        None
    }
}

/// The error of the first offending instruction at or after position `i`.
pub open spec fn first_error_from(v: Seq<(int, int)>, i: int) -> Option<RollError>
    decreases v.len() - i,
{
    if i < 0 || i >= v.len() {
        None
    } else {
        match instruction_error(v[i]) {
            Some(e) => Some(e),
            None => first_error_from(v, i + 1),
        }
    }
}

/// The error of the first offending instruction, in parse order.
pub open spec fn first_error(v: Seq<(int, int)>) -> Option<RollError> {
    first_error_from(v, 0)
}

/// The faces of every die that the instructions ask for, in order.
pub open spec fn faces_of(v: Seq<(int, int)>) -> Seq<int>
    decreases v.len(),
{
    if v.len() == 0 {
        Seq::empty()
    } else {
        faces_of(v.drop_last()) + Seq::new(v.last().0 as nat, |_k: int| v.last().1)
    }
}

/// How many dice the instructions ask for.
pub open spec fn dice_count(v: Seq<(int, int)>) -> int
    decreases v.len(),
{
    if v.len() == 0 {
        0
    } else {
        dice_count(v.drop_last()) + v.last().0
    }
}

/// The largest total the instructions can give: every die on its top face.
pub open spec fn max_total(v: Seq<(int, int)>) -> int
    decreases v.len(),
{
    if v.len() == 0 {
        0
    } else {
        max_total(v.drop_last()) + v.last().0 * v.last().1
    }
}

/// The faces of each rolled die.
pub open spec fn rolls_faces(r: Seq<DiceResult>) -> Seq<int> {
    r.map_values(|d: DiceResult| d.dice as int)
}

/// The sum of the rolled values.
pub open spec fn sum_values(r: Seq<DiceResult>) -> int
    decreases r.len(),
{
    if r.len() == 0 {
        0
    } else {
        sum_values(r.drop_last()) + r.last().value
    }
}

/// The sum of the faces of the rolled dice.
pub open spec fn sum_faces(r: Seq<DiceResult>) -> int
    decreases r.len(),
{
    if r.len() == 0 {
        0
    } else {
        sum_faces(r.drop_last()) + r.last().dice
    }
}

/// A die whose value is one of its faces.
pub open spec fn in_range(d: DiceResult) -> bool {
    1 <= d.value <= d.dice
}

pub open spec fn all_in_range(r: Seq<DiceResult>) -> bool {
    forall|k: int| 0 <= k < r.len() ==> in_range(#[trigger] r[k])
}

/// The values of dice that came up within their faces sum to at least one per
/// die and at most their faces.
pub proof fn lemma_sum_bounds(r: Seq<DiceResult>)
    requires
        all_in_range(r),
    ensures
        r.len() <= sum_values(r) <= sum_faces(r),
    decreases r.len(),
{
    if r.len() > 0 {
        assert(in_range(r[r.len() - 1]));
        lemma_sum_bounds(r.drop_last());
    }
}

/// With values of at least one, a prefix never sums to more than a longer one.
pub proof fn lemma_prefix_sum_monotone(r: Seq<DiceResult>, i: int, n: int)
    requires
        all_in_range(r),
        0 <= i <= n <= r.len(),
    ensures
        sum_values(r.take(i)) <= sum_values(r.take(n)),
    decreases n - i,
{
    if i < n {
        lemma_prefix_sum_monotone(r, i, n - 1);
        assert(r.take(n).drop_last() =~= r.take(n - 1));
        assert(in_range(r[n - 1]));
    }
}

/// Returns the error of the first offending instruction, in order, or `Ok`
/// when every instruction asks for 1 to `MAX_DICE` dice of at least one face.
pub fn validate(instructions: &Vec<RollInstructions>) -> (r: Result<(), RollError>)
    ensures
        match first_error(instructions_view(instructions@)) {
            Some(e) => r == Err::<(), RollError>(e),
            None => r is Ok,
        },
{
    let ghost t = instructions_view(instructions@);
    let mut i: usize = 0;
    while i < instructions.len()
        invariant
            i <= instructions@.len(),
            t == instructions_view(instructions@),
            first_error(t) == first_error_from(t, i as int),
        decreases instructions@.len() - i,
    {
        let ins = instructions[i];
        assert(t[i as int] == (ins.num as int, ins.dice as int));
        if ins.num < 1 {
            return Err(RollError::InstructionCountTooLow);
        } else if ins.num > MAX_DICE {
            return Err(RollError::InstructionCountTooHigh);
        } else if ins.dice < 1 {
            return Err(RollError::InstructionCountTooLow);
        }
        i = i + 1;
    }
    Ok(())
}

/// When no instruction offends, each asks for 1 to `MAX_DICE` dice of at
/// least one face.
pub proof fn lemma_no_error_valid(v: Seq<(int, int)>, i: int)
    requires
        0 <= i,
        first_error_from(v, i) is None,
    ensures
        forall|k: int| i <= k < v.len() ==> 1 <= (#[trigger] v[k]).0 <= MAX_DICE && v[k].1 >= 1,
    decreases v.len() - i,
{
    if i < v.len() {
        lemma_no_error_valid(v, i + 1);
    }
}

#[verifier::external_type_specification]
#[verifier::external_body]
pub struct ExThreadRng(ThreadRng);

/// Relies on rand's `thread_rng`: a handle on the generator of this thread.
#[verifier::external_body]
fn new_rng() -> (r: ThreadRng) {
    rand::thread_rng()
}

/// Relies on rand's `Rng::gen_range`: a value in `[low, high)`, uniform over
/// that range; it panics when `low >= high`.
#[verifier::external_body]
fn draw(rng: &mut ThreadRng, low: i64, high: i64) -> (r: i64)
    requires
        low < high,
    ensures
        low <= r < high,
{
    rng.gen_range(low, high)
}

/// Rolls one die with `dice` faces.
pub fn gen_roll(rng: &mut ThreadRng, dice: i32) -> (r: DiceResult)
    requires
        dice >= 1,
    ensures
        r.dice == dice,
        in_range(r),
{
    let v = draw(rng, 1, dice as i64 + 1);
    DiceResult { dice, value: v as i32 }
}

/// Rolls every die that the instructions ask for, in instruction order.
pub fn roll_dice(rng: &mut ThreadRng, instructions: &Vec<RollInstructions>) -> (r: Vec<
    DiceResult,
>)
    requires
        forall|k: int|
            0 <= k < instructions@.len() ==> #[trigger] instructions@[k].num >= 0
                && instructions@[k].dice >= 1,
    ensures
        rolls_faces(r@) == faces_of(instructions_view(instructions@)),
        r@.len() == dice_count(instructions_view(instructions@)),
        sum_faces(r@) == max_total(instructions_view(instructions@)),
        all_in_range(r@),
{
    let ghost t = instructions_view(instructions@);
    let mut out: Vec<DiceResult> = Vec::new();
    let mut i: usize = 0;
    while i < instructions.len()
        invariant
            i <= instructions@.len(),
            t == instructions_view(instructions@),
            forall|k: int|
                0 <= k < instructions@.len() ==> #[trigger] instructions@[k].num >= 0
                    && instructions@[k].dice >= 1,
            rolls_faces(out@) == faces_of(t.take(i as int)),
            out@.len() == dice_count(t.take(i as int)),
            sum_faces(out@) == max_total(t.take(i as int)),
            all_in_range(out@),
        decreases instructions@.len() - i,
    {
        let ins = instructions[i];
        let ghost f = ins.dice as int;
        let ghost before = out@;
        let mut j: i32 = 0;
        while j < ins.num
            invariant
                0 <= j <= ins.num,
                f == ins.dice as int,
                ins.dice >= 1,
                rolls_faces(out@) == faces_of(t.take(i as int)) + Seq::new(j as nat, |_k: int| f),
                out@.len() == dice_count(t.take(i as int)) + j,
                sum_faces(out@) == max_total(t.take(i as int)) + j * f,
                all_in_range(out@),
            decreases ins.num - j,
        {
            let ghost prev = out@;
            let d = gen_roll(rng, ins.dice);
            out.push(d);
            assert(out@.drop_last() =~= prev);
            assert(rolls_faces(out@) =~= rolls_faces(prev).push(f));
            assert(rolls_faces(out@) =~= faces_of(t.take(i as int)) + Seq::new((j + 1) as nat, |_k: int| f));
            assert((j + 1) * f == j * f + f) by (nonlinear_arith);
            j = j + 1;
        }
        assert(t.take(i + 1).drop_last() =~= t.take(i as int));
        assert(t[i as int] == (ins.num as int, ins.dice as int));
        i = i + 1;
    }
    assert(t.take(i as int) =~= t);
    out
}

/// Sums the rolled dice into a result for `cmd`; fails with `ResultOverflow`
/// exactly when the sum does not fit an `i32`.
pub fn tally(cmd: &str, rolls: Vec<DiceResult>) -> (r: Result<RollResult, RollError>)
    requires
        all_in_range(rolls@),
    ensures
        match r {
            Ok(res) => sum_values(rolls@) <= i32::MAX && res.instruction@ == cmd@ && res.rolls@
                == rolls@ && res.total == sum_values(rolls@),
            Err(e) => sum_values(rolls@) > i32::MAX && e == RollError::ResultOverflow,
        },
{
    let mut total: i32 = 0;
    let mut i: usize = 0;
    while i < rolls.len()
        invariant
            i <= rolls@.len(),
            all_in_range(rolls@),
            total == sum_values(rolls@.take(i as int)),
        decreases rolls@.len() - i,
    {
        let v = rolls[i].value;
        assert(rolls@.take(i + 1).drop_last() =~= rolls@.take(i as int));
        assert(in_range(rolls@[i as int]));
        match total.checked_add(v) {
            Some(t) => {
                total = t;
            },
            None => {
                proof {
                    lemma_prefix_sum_monotone(rolls@, i + 1, rolls@.len() as int);
                    assert(rolls@.take(rolls@.len() as int) =~= rolls@);
                }
                return Err(RollError::ResultOverflow);
            },
        }
        i = i + 1;
    }
    assert(rolls@.take(i as int) =~= rolls@);
    Ok(RollResult { instruction: cmd.to_owned(), rolls, total })
}

/// `res` is a roll of the instructions `t` for the notation `cmd`: one die per
/// die asked for, in order, each showing one of its faces, and their sum.
pub open spec fn is_roll_of(t: Seq<(int, int)>, cmd: Seq<char>, res: RollResult) -> bool {
    &&& res.instruction@ == cmd
    &&& res.rolls@.len() == dice_count(t)
    &&& rolls_faces(res.rolls@) == faces_of(t)
    &&& all_in_range(res.rolls@)
    &&& res.total == sum_values(res.rolls@)
    &&& dice_count(t) <= res.total <= max_total(t)
}

/// What rolling `cmd` may give: `InvalidFormat` when it does not parse, else
/// the error of its first offending instruction, else a roll of its
/// instructions, or `ResultOverflow` only where the largest total does not
/// fit an `i32`.
pub open spec fn roll_outcome(cmd: &str, r: Result<RollResult, RollError>) -> bool {
    let s = cmd.spec_bytes();
    let t = notation_tokens(s);
    match r {
        Ok(res) => parses(s) && first_error(t) is None && is_roll_of(t, cmd@, res),
        Err(e) => if !parses(s) {
            is_invalid_format_of(e, cmd@)
        } else if first_error(t) is Some {
            first_error(t) == Some(e)
        } else {
            e == RollError::ResultOverflow && max_total(t) > i32::MAX
        },
    }
}

/// Parses `cmd`, validates its instructions and rolls them with `rng`.
pub fn roll_with(rng: &mut ThreadRng, cmd: &str) -> (r: Result<RollResult, RollError>)
    ensures
        roll_outcome(cmd, r),
{
    let instructions = match parse_roll(cmd) {
        Ok(v) => v,
        Err(e) => {
            return Err(e);
        },
    };
    let ghost t = instructions_view(instructions@);
    match validate(&instructions) {
        Ok(()) => {},
        Err(e) => {
            return Err(e);
        },
    }
    proof {
        lemma_no_error_valid(t, 0);
        assert forall|k: int| 0 <= k < instructions@.len() implies #[trigger] instructions@[k].num
            >= 0 && instructions@[k].dice >= 1 by {
            assert(t[k] == (instructions@[k].num as int, instructions@[k].dice as int));
        }
    }
    let rolls = roll_dice(rng, &instructions);
    proof {
        lemma_sum_bounds(rolls@);
    }
    tally(cmd, rolls)
}

/// Parses `cmd`, validates its instructions and rolls them with the
/// generator of the current thread.
pub fn roll(cmd: &str) -> (r: Result<RollResult, RollError>)
    ensures
        roll_outcome(cmd, r),
{
    let mut rng = new_rng();
    roll_with(&mut rng, cmd)
}

/// Two successful rolls of one notation have the same dice, in the same
/// order; only the values may differ.
pub proof fn lemma_roll_structure(cmd: &str, a: RollResult, b: RollResult)
    requires
        roll_outcome(cmd, Ok(a)),
        roll_outcome(cmd, Ok(b)),
    ensures
        a.rolls@.len() == b.rolls@.len(),
        rolls_faces(a.rolls@) == rolls_faces(b.rolls@),
{
}

} // verus!
