//! Checking a parameter value against its definition: the type must match,
//! and an integer must lie within the definition's bounds. Floating-point
//! bounds are checked by the caller.
use vstd::prelude::*;

verus! {

/// The shape of a parameter definition: its type and, for integers, its bounds.
#[derive(Debug, Clone, Copy, PartialEq, Eq, Structural)]
pub enum ParamShape {
    Float,
    Int { min: Option<i32>, max: Option<i32> },
    Bool,
}

/// A parameter value, with its payload where it is an integer or a flag.
#[derive(Debug, Clone, Copy, PartialEq, Eq, Structural)]
pub enum ParamInput {
    Float,
    Int(i32),
    Bool(bool),
}

/// What a check of a value against a definition finds.
#[derive(Debug, Clone, PartialEq, Eq)]
pub enum ParamVerdict {
    /// The value is accepted.
    Valid,
    /// Both are floating point: the floating-point bounds decide.
    FloatBounds,
    /// The value is refused, with this message.
    Invalid(String),
}

/// The character of decimal digit `d`.
pub open spec fn digit_char(d: nat) -> char {
    (('0' as u32) + d) as char
}

/// The decimal digits of `n`, most significant first, without leading zeros.
pub open spec fn decimal_digits(n: nat) -> Seq<char>
    decreases n,
{
    if n < 10 {
        seq![digit_char(n)]
    } else {
        decimal_digits(n / 10).push(digit_char(n % 10))
    }
}

/// The decimal text of `i`, with a leading `-` when it is negative.
pub open spec fn decimal(i: int) -> Seq<char> {
    if i < 0 {
        seq!['-'] + decimal_digits((-i) as nat)
    } else {
        decimal_digits(i as nat)
    }
}

/// The text of decimal digit `d`.
fn digit_text(d: u64) -> (text: &'static str)
    requires
        d < 10,
    ensures
        text@ == seq![digit_char(d as nat)],
{
    proof {
        reveal_strlit("0");
        reveal_strlit("1");
        reveal_strlit("2");
        reveal_strlit("3");
        reveal_strlit("4");
        reveal_strlit("5");
        reveal_strlit("6");
        reveal_strlit("7");
        reveal_strlit("8");
        reveal_strlit("9");
    }
    match d {
        0 => "0",
        1 => "1",
        2 => "2",
        3 => "3",
        4 => "4",
        5 => "5",
        6 => "6",
        7 => "7",
        8 => "8",
        _ => "9",
    }
}

/// The digits of `digits`, last first, as characters.
pub open spec fn reversed_digits(digits: Seq<u64>) -> Seq<char> {
    Seq::new(digits.len(), |k: int| digit_char(digits[digits.len() - 1 - k] as nat))
}

/// The decimal text of `i`.
fn int_text(i: i32) -> (text: String)
    ensures
        text@ == decimal(i as int),
{
    let wide: i64 = i as i64;
    let magnitude: u64 = if wide < 0 { (-wide) as u64 } else { wide as u64 };
    let ghost whole = magnitude as nat;
    let mut m: u64 = magnitude;
    let mut digits: Vec<u64> = Vec::new();
    loop
        invariant_except_break
            decimal_digits(whole) == decimal_digits(m as nat) + reversed_digits(digits@),
            forall|k: int| 0 <= k < digits@.len() ==> digits@[k] < 10,
        ensures
            decimal_digits(whole) == reversed_digits(digits@),
            forall|k: int| 0 <= k < digits@.len() ==> digits@[k] < 10,
        decreases m,
    {
        let ghost before = digits@;
        digits.push(m % 10);
        proof {
            assert(reversed_digits(digits@) =~= seq![digit_char((m % 10) as nat)] + reversed_digits(before));
        }
        if m < 10 {
            proof {
                assert(decimal_digits(m as nat) == seq![digit_char(m as nat)]);
                assert(decimal_digits(whole) =~= reversed_digits(digits@));
            }
            break;
        }
        proof {
            assert(decimal_digits(m as nat) == decimal_digits((m / 10) as nat).push(
                digit_char((m % 10) as nat),
            ));
            assert(decimal_digits(whole) =~= decimal_digits((m / 10) as nat) + reversed_digits(digits@));
        }
        m = m / 10;
    }
    let mut text = if wide < 0 {
        String::from_str("-")
    } else {
        String::new()
    };
    let ghost sign: Seq<char> = text@;
    proof {
        reveal_strlit("-");
    }
    let mut j: usize = digits.len();
    while j > 0
        invariant
            j <= digits@.len(),
            forall|k: int| 0 <= k < digits@.len() ==> digits@[k] < 10,
            text@ == sign + reversed_digits(digits@).take(digits@.len() - j),
        decreases j,
    {
        j = j - 1;
        let piece = digit_text(digits[j]);
        let ghost prev = text@;
        text.append(piece);
        proof {
            assert(reversed_digits(digits@).take(digits@.len() - j) =~= reversed_digits(digits@).take(
                digits@.len() - j - 1,
            ).push(digit_char(digits@[j as int] as nat)));
        }
    }
    proof {
        assert(reversed_digits(digits@).take(digits@.len() as int) =~= reversed_digits(digits@));
        if wide < 0 {
            assert(sign == seq!['-']);
            assert(((-i) as nat) == whole);
        } else {
            assert(sign =~= Seq::<char>::empty());
        }
    }
    text
}

/// The message for `value` below the minimum `min`.
pub open spec fn below_min_text(value: int, min: int) -> Seq<char> {
    "Value "@ + decimal(value) + " is below minimum "@ + decimal(min)
}

/// The message for `value` above the maximum `max`.
pub open spec fn above_max_text(value: int, max: int) -> Seq<char> {
    "Value "@ + decimal(value) + " is above maximum "@ + decimal(max)
}

/// Whether `value` is accepted by `shape` without any floating-point check.
pub open spec fn accepted(shape: ParamShape, value: ParamInput) -> bool {
    match (shape, value) {
        (ParamShape::Int { min, max }, ParamInput::Int(v)) => {
            &&& (min matches Some(m) ==> m <= v)
            &&& (max matches Some(m) ==> v <= m)
        },
        (ParamShape::Bool, ParamInput::Bool(_)) => true,
        _ => false,
    }
}

/// Whether both `shape` and `value` are floating point.
pub open spec fn both_float(shape: ParamShape, value: ParamInput) -> bool {
    shape is Float && value is Float
}

/// The message with which `value` is refused, where it is.
pub open spec fn refusal(shape: ParamShape, value: ParamInput) -> Seq<char> {
    match (shape, value) {
        (ParamShape::Int { min, max }, ParamInput::Int(v)) => {
            if min matches Some(m) && v < m {
                below_min_text(v as int, min->0 as int)
            } else {
                above_max_text(v as int, max->0 as int)
            }
        },
        _ => "Parameter type mismatch"@,
    }
}

/// Checks `value` against `shape`: a value of another type is a mismatch;
/// an integer is checked against the minimum first, then the maximum; a
/// flag is always accepted; two floating-point values are left to the
/// floating-point bounds.
pub fn check_param(shape: &ParamShape, value: &ParamInput) -> (verdict: ParamVerdict)
    ensures
        (verdict is Valid) == accepted(*shape, *value),
        (verdict is FloatBounds) == both_float(*shape, *value),
        verdict matches ParamVerdict::Invalid(text) ==> text@ == refusal(*shape, *value),
{
    match (shape, value) {
        (ParamShape::Float, ParamInput::Float) => ParamVerdict::FloatBounds,
        (ParamShape::Int { min, max }, ParamInput::Int(v)) => {
            if let Some(m) = min {
                if *v < *m {
                    let mut text = String::from_str("Value ");
                    let vt = int_text(*v);
                    text.append(vt.as_str());
                    text.append(" is below minimum ");
                    let mt = int_text(*m);
                    text.append(mt.as_str());
                    return ParamVerdict::Invalid(text);
                }
            }
            if let Some(m) = max {
                if *v > *m {
                    let mut text = String::from_str("Value ");
                    let vt = int_text(*v);
                    text.append(vt.as_str());
                    text.append(" is above maximum ");
                    let mt = int_text(*m);
                    text.append(mt.as_str());
                    return ParamVerdict::Invalid(text);
                }
            }
            ParamVerdict::Valid
        },
        (ParamShape::Bool, ParamInput::Bool(_)) => ParamVerdict::Valid,
        _ => ParamVerdict::Invalid(String::from_str("Parameter type mismatch")),
    }
}

/// An integer is accepted exactly when it is at least the minimum and at
/// most the maximum, each bound counting only where it is given. A refused
/// integer below its minimum is reported as below it, else as above the
/// maximum, with both numbers in decimal.
pub proof fn law_check_int_bounds(min: Option<i32>, max: Option<i32>, v: i32)
    ensures
        accepted(ParamShape::Int { min, max }, ParamInput::Int(v)) <==> (forall|m: i32|
            min == Some(m) ==> m <= v) && (forall|m: i32| max == Some(m) ==> v <= m),
        forall|m: i32|
            min == Some(m) && v < m ==> refusal(ParamShape::Int { min, max }, ParamInput::Int(v))
                == "Value "@ + decimal(v as int) + " is below minimum "@ + decimal(m as int),
        forall|m: i32|
            !(min matches Some(lo) && v < lo) && max == Some(m) && v > m ==> refusal(
                ParamShape::Int { min, max },
                ParamInput::Int(v),
            ) == "Value "@ + decimal(v as int) + " is above maximum "@ + decimal(m as int),
{
}

/// A flag is accepted against a flag; two floating-point values are left to
/// the floating-point bounds; a value of another type than its definition
/// is refused as a mismatch.
pub proof fn law_check_param_types(shape: ParamShape, value: ParamInput)
    ensures
        (shape is Bool && value is Bool) ==> accepted(shape, value),
        both_float(shape, value) <==> (shape is Float && value is Float),
        both_float(shape, value) ==> !accepted(shape, value),
        ((shape is Float && !(value is Float)) || (shape is Bool && !(value is Bool)) || (shape is Int
            && !(value is Int))) ==> (!accepted(shape, value) && !both_float(shape, value) && refusal(
            shape,
            value,
        ) == "Parameter type mismatch"@),
{
}

} // verus!
