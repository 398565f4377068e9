//! What can go wrong while a program runs or its level is written out.

use vstd::prelude::*;
use crate::ids::IdClass;
use crate::sources::CodeArea;
use crate::value::{Pattern, PatternView, StoredValue, StoredValueView, ValueType};

verus! {

/// An error of a run. Those that the running program itself causes can be
/// caught by a `try` block; the others end the run.
#[derive(Debug)]
#[allow(inconsistent_fields)]
pub enum RuntimeError {
    /// A value has the wrong tag for where it is used.
    TypeMismatch { v: StoredValue, expected: String, area: CodeArea },
    /// A binary operator does not take these two values.
    InvalidOperands { a: StoredValue, b: StoredValue, op: String, area: CodeArea },
    /// A unary operator does not take this value.
    InvalidUnaryOperand { a: StoredValue, op: String, area: CodeArea },
    /// The value cannot be read as a value of the tag `to`.
    CannotConvert { a: StoredValue, to: ValueType },
    /// The value cannot be walked through by a `for`.
    CannotIterate { a: StoredValue },
    /// The value was called and is no macro.
    CannotCall { base: StoredValue, area: CodeArea },
    /// No type has this name.
    UndefinedType { name: String, area: CodeArea },
    /// The macro has no parameter of this name.
    UndefinedArgument { name: String, macr: StoredValue, area: CodeArea },
    /// More positional arguments than the macro has parameters.
    TooManyArguments { expected: usize, provided: usize, call_area: CodeArea, func: StoredValue },
    /// A parameter got no argument and has no default.
    ArgumentNotSatisfied { arg_name: String, call_area: CodeArea, arg_area: CodeArea },
    /// An argument does not match the pattern of its parameter.
    PatternMismatch { v: StoredValue, pat: (Pattern, CodeArea), area: CodeArea },
    /// An index is outside the array.
    IndexOutOfRange { index: i64, length: usize, area: CodeArea },
    /// The level uses more distinct ids of a class than it may.
    LevelLimitExceeded { class: IdClass, actual: usize, max: usize },
    /// A dependency of the program could not be found.
    DependencyResolution { name: String },
    /// An id in the level string cannot be read.
    MalformedLevel,
    /// The arena takes no further value.
    MemoryExhausted,
    /// The bytecode asks for what the context does not have: an operand
    /// that was never pushed, a variable, constant or function that does not
    /// exist.
    MalformedBytecode { func: usize, index: usize },
}

/// The mathematical value of a [`RuntimeError`].
#[allow(inconsistent_fields)]
pub enum RuntimeErrorView {
    TypeMismatch { v: StoredValueView, expected: Seq<char>, area: CodeArea },
    InvalidOperands { a: StoredValueView, b: StoredValueView, op: Seq<char>, area: CodeArea },
    InvalidUnaryOperand { a: StoredValueView, op: Seq<char>, area: CodeArea },
    CannotConvert { a: StoredValueView, to: ValueType },
    CannotIterate { a: StoredValueView },
    CannotCall { base: StoredValueView, area: CodeArea },
    UndefinedType { name: Seq<char>, area: CodeArea },
    UndefinedArgument { name: Seq<char>, macr: StoredValueView, area: CodeArea },
    TooManyArguments {
        expected: usize,
        provided: usize,
        call_area: CodeArea,
        func: StoredValueView,
    },
    ArgumentNotSatisfied { arg_name: Seq<char>, call_area: CodeArea, arg_area: CodeArea },
    PatternMismatch { v: StoredValueView, pat: (PatternView, CodeArea), area: CodeArea },
    IndexOutOfRange { index: i64, length: usize, area: CodeArea },
    LevelLimitExceeded { class: IdClass, actual: usize, max: usize },
    DependencyResolution { name: Seq<char> },
    MalformedLevel,
    MemoryExhausted,
    MalformedBytecode { func: usize, index: usize },
}

impl View for RuntimeError {
    type V = RuntimeErrorView;

    open spec fn view(&self) -> RuntimeErrorView {
        match self {
            RuntimeError::TypeMismatch { v, expected, area } => RuntimeErrorView::TypeMismatch {
                v: v@,
                expected: expected@,
                area: *area,
            },
            RuntimeError::InvalidOperands { a, b, op, area } => RuntimeErrorView::InvalidOperands {
                a: a@,
                b: b@,
                op: op@,
                area: *area,
            },
            RuntimeError::InvalidUnaryOperand { a, op, area } => RuntimeErrorView::InvalidUnaryOperand {
                a: a@,
                op: op@,
                area: *area,
            },
            RuntimeError::CannotConvert { a, to } => RuntimeErrorView::CannotConvert {
                a: a@,
                to: *to,
            },
            RuntimeError::CannotIterate { a } => RuntimeErrorView::CannotIterate { a: a@ },
            RuntimeError::CannotCall { base, area } => RuntimeErrorView::CannotCall {
                base: base@,
                area: *area,
            },
            RuntimeError::UndefinedType { name, area } => RuntimeErrorView::UndefinedType {
                name: name@,
                area: *area,
            },
            RuntimeError::UndefinedArgument { name, macr, area } => RuntimeErrorView::UndefinedArgument {
                name: name@,
                macr: macr@,
                area: *area,
            },
            RuntimeError::TooManyArguments {
                expected,
                provided,
                call_area,
                func,
            } => RuntimeErrorView::TooManyArguments {
                expected: *expected,
                provided: *provided,
                call_area: *call_area,
                func: func@,
            },
            RuntimeError::ArgumentNotSatisfied {
                arg_name,
                call_area,
                arg_area,
            } => RuntimeErrorView::ArgumentNotSatisfied {
                arg_name: arg_name@,
                call_area: *call_area,
                arg_area: *arg_area,
            },
            RuntimeError::PatternMismatch { v, pat, area } => RuntimeErrorView::PatternMismatch {
                v: v@,
                pat: (pat.0@, pat.1),
                area: *area,
            },
            RuntimeError::IndexOutOfRange { index, length, area } => RuntimeErrorView::IndexOutOfRange {
                index: *index,
                length: *length,
                area: *area,
            },
            RuntimeError::LevelLimitExceeded {
                class,
                actual,
                max,
            } => RuntimeErrorView::LevelLimitExceeded {
                class: *class,
                actual: *actual,
                max: *max,
            },
            RuntimeError::DependencyResolution { name } => RuntimeErrorView::DependencyResolution {
                name: name@,
            },
            RuntimeError::MalformedLevel => RuntimeErrorView::MalformedLevel,
            RuntimeError::MemoryExhausted => RuntimeErrorView::MemoryExhausted,
            RuntimeError::MalformedBytecode { func, index } => RuntimeErrorView::MalformedBytecode {
                func: *func,
                index: *index,
            },
        }
    }
}

impl RuntimeErrorView {
    /// Whether a `try` block catches the error: whether it is the running
    /// program's own.
    pub open spec fn catchable(self) -> bool {
        !(self is MemoryExhausted || self is MalformedBytecode || self is LevelLimitExceeded
            || self is DependencyResolution || self is MalformedLevel)
    }
}

impl RuntimeError {
    /// Whether a `try` block catches the error.
    pub fn is_catchable(&self) -> (r: bool)
        ensures
            r == self@.catchable(),
    {
        match self {
            RuntimeError::MemoryExhausted => false,
            RuntimeError::MalformedBytecode { .. } => false,
            RuntimeError::LevelLimitExceeded { .. } => false,
            RuntimeError::DependencyResolution { .. } => false,
            RuntimeError::MalformedLevel => false,
            _ => true,
        }
    }
}

/// The mathematical value of the result of an operation on values.
pub open spec fn outcome(r: Result<StoredValue, RuntimeError>) -> Result<
    StoredValueView,
    RuntimeErrorView,
> {
    match r {
        Ok(v) => Ok(v@),
        Err(e) => Err(e@),
    }
}

} // verus!
