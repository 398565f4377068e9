//! The bytecode that the compiler hands to the interpreter.

use vstd::prelude::*;
use crate::ids::IdClass;
use crate::sources::CodeArea;
use crate::value::{StoredValue, Value};

verus! {

/// An index into one of the pools of the bytecode, or a count.
pub type InstrNum = u16;

/// One instruction. An instruction with a number refers to the pool that its
/// documentation names, or counts operands.
#[derive(Clone, Copy, Debug, PartialEq, Eq, Structural)]
pub enum Instruction {
    /// Pushes the constant of this number.
    LoadConst(InstrNum),
    /// Pushes the key of the variable of this number.
    LoadVar(InstrNum),
    /// Pops a value and assigns a deep copy of it to the variable.
    SetVar(InstrNum),
    Plus,
    Minus,
    Mult,
    Div,
    Mod,
    Pow,
    Eq,
    NotEq,
    Greater,
    GreaterEq,
    Lesser,
    LesserEq,
    Is,
    Negate,
    Not,
    /// Jumps to the destination of this number.
    Jump(InstrNum),
    /// Pops a truth value and jumps to the destination where it is false.
    JumpIfFalse(InstrNum),
    /// Pops a value and opens a `for` block over it.
    ToIter,
    /// Pushes the next element of the innermost block, or jumps to the
    /// destination where there is none.
    IterNext(InstrNum),
    /// Closes this many blocks.
    PopBlock(InstrNum),
    /// Opens a `try` block whose handler is the destination.
    PushTry(InstrNum),
    YeetContext,
    ReturnValue,
    /// Pops this many values into an array.
    BuildArray(InstrNum),
    /// Pops as many values as the name set has names into a dictionary.
    BuildDict(InstrNum),
    PushEmpty,
    PushNone,
    WrapMaybe,
    PushAnyPattern,
    /// Builds a macro from the build info of this number.
    MakeMacro(InstrNum),
    /// Pops a return pattern and this many parameter patterns.
    MakeMacroPattern(InstrNum),
    /// Pops this many pairs of key and value into an object.
    BuildObject(InstrNum),
    /// Pops this many pairs of key and value into a trigger.
    BuildTrigger(InstrNum),
    AddObject,
    TriggerFuncCall,
    LoadArbitraryId(IdClass),
    /// Splits the context around a trigger function that ends at the
    /// destination.
    EnterTriggerFunction(InstrNum),
    /// Splits the context around an arrow statement that ends at the
    /// destination.
    EnterArrowStatement(InstrNum),
    MergeContexts,
    /// Calls a macro with the arguments that the name set describes.
    Call(InstrNum),
    Index,
    Print,
    PopTop,
    Split,
    LoadType(InstrNum),
    TypeDef(InstrNum),
    Impl(InstrNum),
    Instance(InstrNum),
}

/// A constant of the program.
#[derive(Debug)]
pub enum Constant {
    Int(i64),
    /// A float, as its binary64 bit pattern.
    Float(u64),
    String(String),
    Bool(bool),
    /// The specific id of this number in a class.
    Id(IdClass, u16),
}

impl Constant {
    /// The value that the constant stands for.
    pub open spec fn value(&self) -> crate::value::ValueView {
        match self {
            Constant::Int(n) => crate::value::ValueView::Int(*n),
            Constant::Float(x) => crate::value::ValueView::Float(*x),
            Constant::String(s) => crate::value::ValueView::String(s@),
            Constant::Bool(b) => crate::value::ValueView::Bool(*b),
            Constant::Id(class, n) => crate::emit::id_value(*class, crate::ids::Id::Specific(*n)),
        }
    }

    /// The value of the constant.
    pub fn to_value(&self) -> (r: Value)
        ensures
            r@ == self.value(),
            r@.parts().len() == 0,
            r@.captured().len() == 0,
            r@.sound(),
    {
        match self {
            Constant::Int(n) => Value::Int(*n),
            Constant::Float(x) => Value::Float(*x),
            Constant::String(s) => Value::String(s.clone()),
            Constant::Bool(b) => Value::Bool(*b),
            Constant::Id(class, n) => match class {
                IdClass::Group => Value::Group(crate::ids::Id::Specific(*n)),
                IdClass::Color => Value::Color(crate::ids::Id::Specific(*n)),
                IdClass::Block => Value::Block(crate::ids::Id::Specific(*n)),
                IdClass::Item => Value::Item(crate::ids::Id::Specific(*n)),
            },
        }
    }
}

/// One function of the program: its instructions and the variables that it
/// takes as arguments, captures and declares.
#[derive(Debug)]
pub struct BytecodeFunc {
    pub instructions: Vec<Instruction>,
    pub arg_ids: Vec<InstrNum>,
    pub capture_ids: Vec<InstrNum>,
    pub scoped_var_ids: Vec<InstrNum>,
}

/// What it takes to build a macro: the function it runs and, for each
/// parameter, its name, whether it has a pattern and whether it has a
/// default.
#[derive(Debug)]
pub struct MacroBuildInfo {
    pub func_id: usize,
    pub args: Vec<(String, bool, bool)>,
}

/// The source spans of the parameters of the macro built, or of the
/// arguments of the call made, at one instruction.
#[derive(Debug)]
pub struct ArgSpans {
    pub func: usize,
    pub index: usize,
    pub spans: Vec<(usize, usize)>,
}

/// The program.
#[derive(Debug)]
pub struct Code {
    /// Which source file the program was compiled from.
    pub source: usize,
    pub var_count: usize,
    pub bytecode_funcs: Vec<BytecodeFunc>,
    /// For each function, the source span of each instruction.
    pub spans: Vec<Vec<(usize, usize)>>,
    pub constants: Vec<Constant>,
    pub names: Vec<String>,
    pub name_sets: Vec<Vec<String>>,
    pub destinations: Vec<usize>,
    pub macro_build_info: Vec<MacroBuildInfo>,
    pub macro_arg_spans: Vec<ArgSpans>,
}

impl Code {
    /// The number of instructions of function `func`; none where there is
    /// no such function.
    pub open spec fn len_of(&self, func: usize) -> nat {
        if func < self.bytecode_funcs@.len() {
            self.bytecode_funcs@[func as int].instructions@.len()
        } else {
            0
        }
    }

    /// Computes [`Code::len_of`].
    pub fn func_len(&self, func: usize) -> (n: usize)
        ensures
            n == self.len_of(func),
    {
        if func < self.bytecode_funcs.len() {
            self.bytecode_funcs[func].instructions.len()
        } else {
            0
        }
    }

    /// The instruction at `index` of function `func`, if there is one.
    pub fn instruction(&self, func: usize, index: usize) -> (r: Option<Instruction>)
        ensures
            match r {
                Some(i) => index < self.len_of(func) && i
                    == self.bytecode_funcs@[func as int].instructions@[index as int],
                None => index >= self.len_of(func),
            },
    {
        if func < self.bytecode_funcs.len() && index < self.bytecode_funcs[func].instructions.len() {
            Some(self.bytecode_funcs[func].instructions[index])
        } else {
            None
        }
    }

    /// The source span of the instruction at `index` of function `func`;
    /// the empty span at 0 where none is recorded.
    pub fn get_bytecode_span(&self, func: usize, index: usize) -> (r: (usize, usize))
        ensures
            r == self.span_of(func, index),
    {
        if func < self.spans.len() && index < self.spans[func].len() {
            self.spans[func][index]
        } else {
            (0, 0)
        }
    }

    /// The source span of an instruction; the empty span at 0 where none is
    /// recorded.
    pub open spec fn span_of(&self, func: usize, index: usize) -> (usize, usize) {
        if func < self.spans@.len() && index < self.spans@[func as int]@.len() {
            self.spans@[func as int]@[index as int]
        } else {
            (0, 0)
        }
    }

    /// The area of a span of the program's source.
    pub fn make_area(&self, span: (usize, usize)) -> (r: CodeArea)
        ensures
            r == (CodeArea { source: self.source, start: span.0, end: span.1 }),
    {
        CodeArea { source: self.source, start: span.0, end: span.1 }
    }

    /// The area of the instruction at `index` of function `func`.
    pub open spec fn area_of(&self, func: usize, index: usize) -> CodeArea {
        CodeArea {
            source: self.source,
            start: self.span_of(func, index).0,
            end: self.span_of(func, index).1,
        }
    }

    /// Computes [`Code::area_of`].
    pub fn area_at(&self, func: usize, index: usize) -> (r: CodeArea)
        ensures
            r == self.area_of(func, index),
    {
        let span = self.get_bytecode_span(func, index);
        self.make_area(span)
    }

    /// The value that a variable holds before it is assigned: the empty
    /// value, defined nowhere.
    pub fn dummy_value(&self) -> (r: StoredValue)
        ensures
            r@.value == crate::value::ValueView::Empty,
            r@.def_area == (CodeArea { source: self.source, start: 0, end: 0 }),
    {
        Value::Empty.into_stored(CodeArea { source: self.source, start: 0, end: 0 })
    }

    /// Whether entry `i` of the argument spans is the first recorded for
    /// the instruction at `index` of function `func`.
    pub open spec fn spans_at(&self, func: usize, index: usize, i: int) -> bool {
        &&& 0 <= i < self.macro_arg_spans@.len()
        &&& self.macro_arg_spans@[i].func == func
        &&& self.macro_arg_spans@[i].index == index
        &&& forall|j: int|
            0 <= j < i ==> !((#[trigger] self.macro_arg_spans@[j]).func == func
                && self.macro_arg_spans@[j].index == index)
    }

    /// The first entry recorded for an instruction is one entry.
    pub proof fn lemma_spans_at_one(&self, func: usize, index: usize, i: int, j: int)
        requires
            self.spans_at(func, index, i),
            self.spans_at(func, index, j),
        ensures
            i == j,
    {
        if i < j {
            assert(!(self.macro_arg_spans@[i].func == func && self.macro_arg_spans@[i].index
                == index));
        } else if j < i {
            assert(!(self.macro_arg_spans@[j].func == func && self.macro_arg_spans@[j].index
                == index));
        }
    }

    /// Which entry of the argument spans is recorded for the instruction at
    /// `index` of function `func`: the first, if any is.
    pub fn arg_spans(&self, func: usize, index: usize) -> (r: Option<usize>)
        ensures
            match r {
                Some(i) => self.spans_at(func, index, i as int),
                None => forall|i: int| !self.spans_at(func, index, i),
            },
    {
        let mut i: usize = 0;
        while i < self.macro_arg_spans.len()
            invariant
                i <= self.macro_arg_spans.len(),
                forall|j: int|
                    0 <= j < i ==> !((#[trigger] self.macro_arg_spans@[j]).func == func
                        && self.macro_arg_spans@[j].index == index),
            decreases self.macro_arg_spans.len() - i,
        {
            if self.macro_arg_spans[i].func == func && self.macro_arg_spans[i].index == index {
                return Some(i);
            }
            i += 1;
        }
        None
    }
}

} // verus!
