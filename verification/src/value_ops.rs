//! The operators of the language on stored values.

use vstd::prelude::*;
use crate::error::{outcome, RuntimeError, RuntimeErrorView};
use crate::float::{
    float_le, float_lt, float_lt_int, float_neg, int_eq_float, int_equals, int_less, int_lt_float,
    less, less_eq, less_than_int, negate, FloatUnit,
};
use crate::sources::CodeArea;
use crate::value::{
    copy_keys, Macro, Pattern, PatternView, StoredValue, StoredValueView, Value, ValueType,
    ValueView,
};

verus! {

/// The binary operators on numbers, texts and arrays.
#[derive(Clone, Copy, Debug, PartialEq, Eq, Structural)]
pub enum Operator {
    Plus,
    Minus,
    Mult,
    Div,
    Mod,
    Pow,
    Greater,
    GreaterEq,
    Lesser,
    LesserEq,
}

impl Operator {
    /// The glyph of the operator.
    pub open spec fn glyph(self) -> Seq<char> {
        match self {
            Operator::Plus => "+"@,
            Operator::Minus => "-"@,
            Operator::Mult => "*"@,
            Operator::Div => "/"@,
            Operator::Mod => "%"@,
            Operator::Pow => "^"@,
            Operator::Greater => ">"@,
            Operator::GreaterEq => ">="@,
            Operator::Lesser => "<"@,
            Operator::LesserEq => "<="@,
        }
    }

    /// Whether the operator compares.
    pub open spec fn compares(self) -> bool {
        self is Greater || self is GreaterEq || self is Lesser || self is LesserEq
    }

    fn glyph_string(self) -> (r: String)
        ensures
            r@ == self.glyph(),
    {
        let s = match self {
            Operator::Plus => "+",
            Operator::Minus => "-",
            Operator::Mult => "*",
            Operator::Div => "/",
            Operator::Mod => "%",
            Operator::Pow => "^",
            Operator::Greater => ">",
            Operator::GreaterEq => ">=",
            Operator::Lesser => "<",
            Operator::LesserEq => "<=",
        };
        String::from_str(s)
    }

    fn is_comparison(self) -> (r: bool)
        ensures
            r == self.compares(),
    {
        match self {
            Operator::Greater | Operator::GreaterEq | Operator::Lesser | Operator::LesserEq => true,
            _ => false,
        }
    }
}

/// `n` copies of `s`, one after another.
pub open spec fn repeated(s: Seq<char>, n: nat) -> Seq<char>
    decreases n,
{
    if n == 0 {
        Seq::<char>::empty()
    } else {
        s + repeated(s, (n - 1) as nat)
    }
}

/// How often an integer count repeats a text: not at all where it is
/// negative.
pub open spec fn repeat_count(n: i64) -> nat {
    if n < 0 {
        0
    } else {
        n as nat
    }
}

/// What a comparison of two floats gives.
pub open spec fn float_comparison(op: Operator, x: u64, y: u64) -> bool {
    match op {
        Operator::Greater => float_lt(y, x),
        Operator::GreaterEq => float_le(y, x),
        Operator::Lesser => float_lt(x, y),
        _ => float_le(x, y),
    }
}

/// What a comparison of an integer with a float gives: the order of the two
/// numbers; with a NaN nothing holds.
pub open spec fn int_float_comparison(op: Operator, n: i64, x: u64) -> bool {
    match op {
        Operator::Greater => float_lt_int(x, n),
        Operator::GreaterEq => float_lt_int(x, n) || int_eq_float(n, x),
        Operator::Lesser => int_lt_float(n, x),
        _ => int_lt_float(n, x) || int_eq_float(n, x),
    }
}

/// What a comparison of a float with an integer gives.
pub open spec fn float_int_comparison(op: Operator, x: u64, n: i64) -> bool {
    match op {
        Operator::Greater => int_lt_float(n, x),
        Operator::GreaterEq => int_lt_float(n, x) || int_eq_float(n, x),
        Operator::Lesser => float_lt_int(x, n),
        _ => float_lt_int(x, n) || int_eq_float(n, x),
    }
}

/// What a comparison of two integers gives.
pub open spec fn int_comparison(op: Operator, x: i64, y: i64) -> bool {
    match op {
        Operator::Greater => x > y,
        Operator::GreaterEq => x >= y,
        Operator::Lesser => x < y,
        _ => x <= y,
    }
}

/// What a binary operator gives on two values.
pub enum Answer {
    /// This value.
    Is(ValueView),
    /// A float that the floating-point unit computes.
    SomeFloat,
    /// An integer that the floating-point unit computes.
    SomeInt,
    /// Nothing: the operator does not take the two values.
    Invalid,
}

/// What `op` gives on two integers.
pub open spec fn int_answer(op: Operator, x: i64, y: i64) -> Answer {
    match op {
        Operator::Plus => Answer::Is(ValueView::Int(x.wrapping_add(y))),
        Operator::Minus => Answer::Is(ValueView::Int(x.wrapping_sub(y))),
        Operator::Mult => Answer::Is(ValueView::Int(x.wrapping_mul(y))),
        Operator::Div => match x.checked_div(y) {
            Some(q) => Answer::Is(ValueView::Int(q)),
            None => Answer::Invalid,
        },
        Operator::Mod => match x.checked_rem(y) {
            Some(q) => Answer::Is(ValueView::Int(q)),
            None => Answer::Invalid,
        },
        Operator::Pow => Answer::SomeInt,
        _ => Answer::Is(ValueView::Bool(int_comparison(op, x, y))),
    }
}

/// What `op` gives on two values: integers are computed here, wrapping
/// around on overflow and refusing a zero divisor; floats, and an integer
/// beside a float, are compared here, as the numbers that they are; their
/// arithmetic is left to the floating-point unit; `+` joins two texts or two
/// arrays; `*` repeats a text.
pub open spec fn answer(op: Operator, a: ValueView, b: ValueView) -> Answer {
    match (a, b) {
        (ValueView::Int(x), ValueView::Int(y)) => int_answer(op, x, y),
        (ValueView::Float(x), ValueView::Float(y)) => if op.compares() {
            Answer::Is(ValueView::Bool(float_comparison(op, x, y)))
        } else {
            Answer::SomeFloat
        },
        (ValueView::Int(x), ValueView::Float(y)) => if op.compares() {
            Answer::Is(ValueView::Bool(int_float_comparison(op, x, y)))
        } else {
            Answer::SomeFloat
        },
        (ValueView::Float(x), ValueView::Int(y)) => if op.compares() {
            Answer::Is(ValueView::Bool(float_int_comparison(op, x, y)))
        } else {
            Answer::SomeFloat
        },
        (ValueView::String(s), ValueView::String(t)) => if op is Plus {
            Answer::Is(ValueView::String(s + t))
        } else {
            Answer::Invalid
        },
        (ValueView::Array(s), ValueView::Array(t)) => if op is Plus {
            Answer::Is(ValueView::Array(s + t))
        } else {
            Answer::Invalid
        },
        (ValueView::Int(n), ValueView::String(s)) | (ValueView::String(s), ValueView::Int(n)) => if op is Mult {
            Answer::Is(ValueView::String(repeated(s, repeat_count(n))))
        } else {
            Answer::Invalid
        },
        _ => Answer::Invalid,
    }
}

/// Whether `r` is what `op` returns on `a` and `b` at `area`.
pub open spec fn binary_post(
    op: Operator,
    a: StoredValueView,
    b: StoredValueView,
    area: CodeArea,
    r: Result<StoredValueView, RuntimeErrorView>,
) -> bool {
    match answer(op, a.value, b.value) {
        Answer::Is(v) => r == Ok::<StoredValueView, RuntimeErrorView>(
            StoredValueView { value: v, def_area: area },
        ),
        Answer::SomeFloat => r matches Ok(s) && s.def_area == area && s.value is Float,
        Answer::SomeInt => r matches Ok(s) && s.def_area == area && s.value is Int,
        Answer::Invalid => r == Err::<StoredValueView, RuntimeErrorView>(
            RuntimeErrorView::InvalidOperands { a, b, op: op.glyph(), area },
        ),
    }
}

/// Compares two floats.
pub fn float_compare(op: Operator, x: u64, y: u64) -> (r: bool)
    requires
        op.compares(),
    ensures
        r == float_comparison(op, x, y),
{
    match op {
        Operator::Greater => less(y, x),
        Operator::GreaterEq => less_eq(y, x),
        Operator::Lesser => less(x, y),
        _ => less_eq(x, y),
    }
}

/// Compares an integer with a float.
pub fn int_float_compare(op: Operator, n: i64, x: u64) -> (r: bool)
    requires
        op.compares(),
    ensures
        r == int_float_comparison(op, n, x),
{
    match op {
        Operator::Greater => less_than_int(x, n),
        Operator::GreaterEq => less_than_int(x, n) || int_equals(n, x),
        Operator::Lesser => int_less(n, x),
        _ => int_less(n, x) || int_equals(n, x),
    }
}

/// Compares a float with an integer.
pub fn float_int_compare(op: Operator, x: u64, n: i64) -> (r: bool)
    requires
        op.compares(),
    ensures
        r == float_int_comparison(op, x, n),
{
    match op {
        Operator::Greater => int_less(n, x),
        Operator::GreaterEq => int_less(n, x) || int_equals(n, x),
        Operator::Lesser => less_than_int(x, n),
        _ => less_than_int(x, n) || int_equals(n, x),
    }
}

/// What an arithmetic operator gives on two floats, by the floating-point
/// unit.
fn float_arith<F: FloatUnit>(op: Operator, x: u64, y: u64, fl: &F) -> (r: u64)
    requires
        !op.compares(),
{
    match op {
        Operator::Plus => fl.sum(x, y),
        Operator::Minus => fl.difference(x, y),
        Operator::Mult => fl.product(x, y),
        Operator::Div => fl.quotient(x, y),
        Operator::Mod => fl.remainder(x, y),
        _ => fl.power(x, y),
    }
}

/// `n` copies of `s`, one after another; none where `n` is negative.
pub fn repeat(s: &String, n: i64) -> (r: String)
    ensures
        r@ == repeated(s@, repeat_count(n)),
{
    let mut r = String::new();
    let mut i: i64 = 0;
    assert(r@ =~= repeated(s@, 0));
    while i < n
        invariant
            0 <= i,
            i <= n || n < 0,
            n < 0 ==> i == 0,
            r@ == repeated(s@, i as nat),
        decreases n - i,
    {
        proof {
            lemma_repeated_end(s@, i as nat);
        }
        r.append(s.as_str());
        i += 1;
    }
    r
}

/// One more copy at the end is one more copy.
pub proof fn lemma_repeated_end(s: Seq<char>, n: nat)
    ensures
        repeated(s, n) + s == repeated(s, n + 1),
    decreases n,
{
    if n == 0 {
        assert(repeated(s, 0) + s =~= s + repeated(s, 0));
    } else {
        lemma_repeated_end(s, (n - 1) as nat);
        assert(repeated(s, n) + s =~= s + (repeated(s, (n - 1) as nat) + s));
    }
}

/// No copies of a text are the empty text, and `n` copies, for `n` at least
/// one, are the text and then `n - 1` copies.
pub proof fn lemma_repeat_law(s: Seq<char>, n: i64)
    ensures
        repeated(s, repeat_count(0)) == Seq::<char>::empty(),
        n < 0 ==> repeated(s, repeat_count(n)) == Seq::<char>::empty(),
        n >= 1 ==> repeated(s, repeat_count(n)) == s + repeated(s, repeat_count((n - 1) as i64)),
{
}

fn invalid(op: Operator, a: &StoredValue, b: &StoredValue, area: CodeArea) -> (r: Result<
    StoredValue,
    RuntimeError,
>)
    ensures
        outcome(r) == Err::<StoredValueView, RuntimeErrorView>(
            RuntimeErrorView::InvalidOperands { a: a@, b: b@, op: op.glyph(), area },
        ),
{
    Err(RuntimeError::InvalidOperands { a: a.copy(), b: b.copy(), op: op.glyph_string(), area })
}

/// Applies a binary operator to two values.
pub fn binary<F: FloatUnit>(
    op: Operator,
    a: &StoredValue,
    b: &StoredValue,
    area: CodeArea,
    fl: &F,
) -> (r: Result<StoredValue, RuntimeError>)
    ensures
        binary_post(op, a@, b@, area, outcome(r)),
{
    let value = match (&a.value, &b.value) {
        (Value::Int(x), Value::Int(y)) => match op {
            Operator::Plus => Value::Int(x.wrapping_add(*y)),
            Operator::Minus => Value::Int(x.wrapping_sub(*y)),
            Operator::Mult => Value::Int(x.wrapping_mul(*y)),
            Operator::Div => match x.checked_div(*y) {
                Some(q) => Value::Int(q),
                None => {
                    return invalid(op, a, b, area);
                },
            },
            Operator::Mod => match x.checked_rem(*y) {
                Some(q) => Value::Int(q),
                None => {
                    return invalid(op, a, b, area);
                },
            },
            Operator::Pow => Value::Int(
                fl.floor_to_int(fl.power(fl.from_int(*x), fl.from_int(*y))),
            ),
            Operator::Greater => Value::Bool(*x > *y),
            Operator::GreaterEq => Value::Bool(*x >= *y),
            Operator::Lesser => Value::Bool(*x < *y),
            Operator::LesserEq => Value::Bool(*x <= *y),
        },
        (Value::Float(x), Value::Float(y)) => if op.is_comparison() {
            Value::Bool(float_compare(op, *x, *y))
        } else {
            Value::Float(float_arith(op, *x, *y, fl))
        },
        (Value::Int(x), Value::Float(y)) => if op.is_comparison() {
            Value::Bool(int_float_compare(op, *x, *y))
        } else {
            Value::Float(float_arith(op, fl.from_int(*x), *y, fl))
        },
        (Value::Float(x), Value::Int(y)) => if op.is_comparison() {
            Value::Bool(float_int_compare(op, *x, *y))
        } else {
            Value::Float(float_arith(op, *x, fl.from_int(*y), fl))
        },
        (Value::String(s), Value::String(t)) => match op {
            Operator::Plus => {
                let mut out = s.clone();
                out.append(t.as_str());
                Value::String(out)
            },
            _ => {
                return invalid(op, a, b, area);
            },
        },
        (Value::Array(s), Value::Array(t)) => match op {
            Operator::Plus => {
                let mut out = copy_keys(s);
                let mut i: usize = 0;
                while i < t.len()
                    invariant
                        i <= t.len(),
                        out@ == s@ + t@.subrange(0, i as int),
                    decreases t.len() - i,
                {
                    out.push(t[i]);
                    i += 1;
                    assert(out@ =~= s@ + t@.subrange(0, i as int));
                }
                assert(out@ =~= s@ + t@);
                Value::Array(out)
            },
            _ => {
                return invalid(op, a, b, area);
            },
        },
        (Value::Int(n), Value::String(s)) => match op {
            Operator::Mult => Value::String(repeat(s, *n)),
            _ => {
                return invalid(op, a, b, area);
            },
        },
        (Value::String(s), Value::Int(n)) => match op {
            Operator::Mult => Value::String(repeat(s, *n)),
            _ => {
                return invalid(op, a, b, area);
            },
        },
        _ => {
            return invalid(op, a, b, area);
        },
    };
    Ok(value.into_stored(area))
}

/// `a + b`.
pub fn plus<F: FloatUnit>(a: &StoredValue, b: &StoredValue, area: CodeArea, fl: &F) -> (r: Result<
    StoredValue,
    RuntimeError,
>)
    ensures
        binary_post(Operator::Plus, a@, b@, area, outcome(r)),
{
    binary(Operator::Plus, a, b, area, fl)
}

/// `a - b`.
pub fn minus<F: FloatUnit>(a: &StoredValue, b: &StoredValue, area: CodeArea, fl: &F) -> (r: Result<
    StoredValue,
    RuntimeError,
>)
    ensures
        binary_post(Operator::Minus, a@, b@, area, outcome(r)),
{
    binary(Operator::Minus, a, b, area, fl)
}

/// `a * b`.
pub fn mult<F: FloatUnit>(a: &StoredValue, b: &StoredValue, area: CodeArea, fl: &F) -> (r: Result<
    StoredValue,
    RuntimeError,
>)
    ensures
        binary_post(Operator::Mult, a@, b@, area, outcome(r)),
{
    binary(Operator::Mult, a, b, area, fl)
}

/// `a / b`.
pub fn div<F: FloatUnit>(a: &StoredValue, b: &StoredValue, area: CodeArea, fl: &F) -> (r: Result<
    StoredValue,
    RuntimeError,
>)
    ensures
        binary_post(Operator::Div, a@, b@, area, outcome(r)),
{
    binary(Operator::Div, a, b, area, fl)
}

/// `a % b`.
pub fn modulo<F: FloatUnit>(a: &StoredValue, b: &StoredValue, area: CodeArea, fl: &F) -> (r:
    Result<StoredValue, RuntimeError>)
    ensures
        binary_post(Operator::Mod, a@, b@, area, outcome(r)),
{
    binary(Operator::Mod, a, b, area, fl)
}

/// `a ^ b`.
pub fn pow<F: FloatUnit>(a: &StoredValue, b: &StoredValue, area: CodeArea, fl: &F) -> (r: Result<
    StoredValue,
    RuntimeError,
>)
    ensures
        binary_post(Operator::Pow, a@, b@, area, outcome(r)),
{
    binary(Operator::Pow, a, b, area, fl)
}

/// `a > b`.
pub fn greater<F: FloatUnit>(a: &StoredValue, b: &StoredValue, area: CodeArea, fl: &F) -> (r:
    Result<StoredValue, RuntimeError>)
    ensures
        binary_post(Operator::Greater, a@, b@, area, outcome(r)),
{
    binary(Operator::Greater, a, b, area, fl)
}

/// `a >= b`.
pub fn greater_eq<F: FloatUnit>(a: &StoredValue, b: &StoredValue, area: CodeArea, fl: &F) -> (r:
    Result<StoredValue, RuntimeError>)
    ensures
        binary_post(Operator::GreaterEq, a@, b@, area, outcome(r)),
{
    binary(Operator::GreaterEq, a, b, area, fl)
}

/// `a < b`.
pub fn lesser<F: FloatUnit>(a: &StoredValue, b: &StoredValue, area: CodeArea, fl: &F) -> (r:
    Result<StoredValue, RuntimeError>)
    ensures
        binary_post(Operator::Lesser, a@, b@, area, outcome(r)),
{
    binary(Operator::Lesser, a, b, area, fl)
}

/// `a <= b`.
pub fn lesser_eq<F: FloatUnit>(a: &StoredValue, b: &StoredValue, area: CodeArea, fl: &F) -> (r:
    Result<StoredValue, RuntimeError>)
    ensures
        binary_post(Operator::LesserEq, a@, b@, area, outcome(r)),
{
    binary(Operator::LesserEq, a, b, area, fl)
}

/// What `-a` gives: the negative of an integer, wrapping around, or of a
/// float.
pub open spec fn negated(a: ValueView) -> Option<ValueView> {
    match a {
        ValueView::Int(n) => Some(ValueView::Int(0i64.wrapping_sub(n))),
        ValueView::Float(x) => Some(ValueView::Float(float_neg(x))),
        _ => None,
    }
}

/// What `!a` gives: the other truth value.
pub open spec fn inverted(a: ValueView) -> Option<ValueView> {
    match a {
        ValueView::Bool(b) => Some(ValueView::Bool(!b)),
        _ => None,
    }
}

/// Whether `r` is what a unary operator with glyph `glyph` returns on `a`
/// at `area`, where `to` is what it gives.
pub open spec fn unary_post(
    to: Option<ValueView>,
    glyph: Seq<char>,
    a: StoredValueView,
    area: CodeArea,
    r: Result<StoredValueView, RuntimeErrorView>,
) -> bool {
    match to {
        Some(v) => r == Ok::<StoredValueView, RuntimeErrorView>(
            StoredValueView { value: v, def_area: area },
        ),
        None => r == Err::<StoredValueView, RuntimeErrorView>(
            RuntimeErrorView::InvalidUnaryOperand { a, op: glyph, area },
        ),
    }
}

/// `-a`.
pub fn unary_negate(a: &StoredValue, area: CodeArea) -> (r: Result<StoredValue, RuntimeError>)
    ensures
        unary_post(negated(a@.value), "-"@, a@, area, outcome(r)),
{
    let value = match &a.value {
        Value::Int(n) => Value::Int(0i64.wrapping_sub(*n)),
        Value::Float(x) => Value::Float(negate(*x)),
        _ => {
            return Err(
                RuntimeError::InvalidUnaryOperand { a: a.copy(), op: String::from_str("-"), area },
            );
        },
    };
    Ok(value.into_stored(area))
}

/// `!a`.
pub fn unary_not(a: &StoredValue, area: CodeArea) -> (r: Result<StoredValue, RuntimeError>)
    ensures
        unary_post(inverted(a@.value), "!"@, a@, area, outcome(r)),
{
    let value = match &a.value {
        Value::Bool(b) => Value::Bool(!*b),
        _ => {
            return Err(
                RuntimeError::InvalidUnaryOperand { a: a.copy(), op: String::from_str("!"), area },
            );
        },
    };
    Ok(value.into_stored(area))
}

/// Whether a value matches a pattern: anything matches `Any`; a tag is
/// matched by the values that have it; a macro pattern by the macros with the
/// same return pattern and as many parameters as it lists patterns, each
/// parameter with the pattern in its place.
pub open spec fn fits(val: ValueView, pat: PatternView) -> bool {
    match pat {
        PatternView::Any => true,
        PatternView::Type(t) => val.type_of() == t,
        PatternView::Macro { args, ret } => match val {
            ValueView::Macro(m) => m.ret_type.0 == *ret && m.args.len() == args.len() && forall|
                i: int,
            | 0 <= i < m.args.len() ==> (#[trigger] m.args[i]).pattern_or_any() == args[i],
            _ => false,
        },
    }
}

/// Whether `val` matches `pat`.
#[verifier::loop_isolation(false)]
pub fn matches_pat(val: &Value, pat: &Pattern) -> (r: bool)
    ensures
        r == fits(val@, pat@),
{
    match pat {
        Pattern::Any => true,
        Pattern::Type(t) => val.get_type() == *t,
        Pattern::Macro { args, ret } => match val {
            Value::Macro(m) => {
                if !m.ret_type.0.same(ret) {
                    return false;
                }
                if m.args.len() != args.len() {
                    return false;
                }
                let mut i: usize = 0;
                while i < m.args.len()
                    invariant
                        i <= m.args.len(),
                        i <= args.len(),
                        forall|j: int|
                            0 <= j < i ==> (#[trigger] m@.args[j]).pattern_or_any() == args@[j]@,
                    decreases m.args.len() - i,
                {
                    let p = m.args[i].get_pattern();
                    assert(m@.args[i as int] == m.args@[i as int]@);
                    if !p.same(&args[i]) {
                        assert(m@.args[i as int].pattern_or_any() != pat@->Macro_args[i as int]);
                        return false;
                    }
                    i += 1;
                }
                true
            },
            _ => false,
        },
    }
}

/// What the `is` operator gives on a value and what stands to its right.
pub open spec fn is_answer(a: ValueView, b: ValueView) -> Option<bool> {
    match b {
        ValueView::TypeIndicator(t) => Some(a.type_of() == t),
        ValueView::Pattern(p) => Some(fits(a, p)),
        _ => None,
    }
}

/// `a is b`: whether `a` has the tag, or matches the pattern, that `b` is.
pub fn is_op(a: &StoredValue, b: &StoredValue, area: CodeArea) -> (r: Result<
    StoredValue,
    RuntimeError,
>)
    ensures
        match is_answer(a@.value, b@.value) {
            Some(t) => outcome(r) == Ok::<StoredValueView, RuntimeErrorView>(
                StoredValueView { value: ValueView::Bool(t), def_area: area },
            ),
            None => outcome(r) == Err::<StoredValueView, RuntimeErrorView>(
                RuntimeErrorView::TypeMismatch {
                    v: b@,
                    expected: "@type_indicator or @pattern"@,
                    area,
                },
            ),
        },
{
    let value = match &b.value {
        Value::TypeIndicator(t) => Value::Bool(a.value.get_type() == *t),
        Value::Pattern(p) => Value::Bool(matches_pat(&a.value, p)),
        _ => {
            return Err(
                RuntimeError::TypeMismatch {
                    v: b.copy(),
                    expected: String::from_str("@type_indicator or @pattern"),
                    area,
                },
            );
        },
    };
    Ok(value.into_stored(area))
}

/// The truth value that `a` is; an error where it is none.
pub fn to_bool(a: &StoredValue) -> (r: Result<bool, RuntimeError>)
    ensures
        match a@.value {
            ValueView::Bool(b) => r matches Ok(x) && x == b,
            _ => r matches Err(e) && e@ == (RuntimeErrorView::CannotConvert {
                a: a@,
                to: ValueType::Bool,
            }),
        },
{
    match &a.value {
        Value::Bool(b) => Ok(*b),
        _ => Err(RuntimeError::CannotConvert { a: a.copy(), to: ValueType::Bool }),
    }
}

/// The pattern that `a` is: a tag stands for the pattern of that tag; an
/// error where `a` is neither.
pub fn to_pat(a: &StoredValue) -> (r: Result<Pattern, RuntimeError>)
    ensures
        match a@.value {
            ValueView::TypeIndicator(t) => r matches Ok(p) && p@ == PatternView::Type(t),
            ValueView::Pattern(q) => r matches Ok(p) && p@ == q,
            _ => r matches Err(e) && e@ == (RuntimeErrorView::CannotConvert {
                a: a@,
                to: ValueType::Pattern,
            }),
        },
{
    match &a.value {
        Value::TypeIndicator(t) => Ok(Pattern::Type(*t)),
        Value::Pattern(p) => Ok(p.copy()),
        _ => Err(RuntimeError::CannotConvert { a: a.copy(), to: ValueType::Pattern }),
    }
}

} // verus!
