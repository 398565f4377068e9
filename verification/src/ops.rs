//! The instructions that compute: operators, constants, simple values and
//! jumps.

use vstd::prelude::*;
use crate::bytecode::{Code, InstrNum};
use crate::contexts::Context;
use crate::equality::{equality, values_equal};
use crate::error::{outcome, RuntimeError, RuntimeErrorView};
use crate::float::FloatUnit;
use crate::flow::{
    at, dropped_top, fails, fails_malformed, goes_on, goes_to, kept, malformed, nothing_pushed,
    out_of_room, ready, replaced_top, Flow,
};
use crate::globals::Globals;
use crate::machine::push_value;
use crate::sources::CodeArea;
use crate::value::{Pattern, StoredValue, StoredValueView, Value, ValueView};
use crate::value_ops::{
    binary, binary_post, inverted, is_answer, is_op, negated, to_bool, unary_negate, unary_not,
    unary_post, Operator,
};

verus! {

/// An instruction that takes two operands off the stack and puts one result
/// on.
#[derive(Clone, Copy, Debug, PartialEq, Eq, Structural)]
pub enum Binary {
    Arith(Operator),
    Eq,
    NotEq,
    Is,
}

/// Whether `r` is what the instruction `b` gives on the operands `x` and
/// `y` at `area`, over the state `g`.
pub open spec fn binary_result(
    b: Binary,
    x: StoredValueView,
    y: StoredValueView,
    area: CodeArea,
    g: &Globals,
    r: Result<StoredValueView, RuntimeErrorView>,
) -> bool {
    match b {
        Binary::Arith(op) => binary_post(op, x, y, area, r),
        Binary::Eq => r == Ok::<StoredValueView, RuntimeErrorView>(
            StoredValueView {
                value: ValueView::Bool(values_equal(&g.memory, x.value, y.value)),
                def_area: area,
            },
        ),
        Binary::NotEq => r == Ok::<StoredValueView, RuntimeErrorView>(
            StoredValueView {
                value: ValueView::Bool(!values_equal(&g.memory, x.value, y.value)),
                def_area: area,
            },
        ),
        Binary::Is => match is_answer(x.value, y.value) {
            Some(t) => r == Ok::<StoredValueView, RuntimeErrorView>(
                StoredValueView { value: ValueView::Bool(t), def_area: area },
            ),
            None => r == Err::<StoredValueView, RuntimeErrorView>(
                RuntimeErrorView::TypeMismatch {
                    v: y,
                    expected: "@type_indicator or @pattern"@,
                    area,
                },
            ),
        },
    }
}

/// `a == b`, as a stored truth value.
pub fn eq(a: &StoredValue, b: &StoredValue, area: CodeArea, globals: &Globals) -> (r: Result<
    StoredValue,
    RuntimeError,
>)
    requires
        globals.memory.wf(),
        globals.memory.admits(a@.value),
        globals.memory.admits(b@.value),
    ensures
        binary_result(Binary::Eq, a@, b@, area, globals, outcome(r)),
{
    Ok(Value::Bool(equality(&a.value, &b.value, &globals.memory)).into_stored(area))
}

/// `a != b`, as a stored truth value.
pub fn not_eq(a: &StoredValue, b: &StoredValue, area: CodeArea, globals: &Globals) -> (r: Result<
    StoredValue,
    RuntimeError,
>)
    requires
        globals.memory.wf(),
        globals.memory.admits(a@.value),
        globals.memory.admits(b@.value),
    ensures
        binary_result(Binary::NotEq, a@, b@, area, globals, outcome(r)),
{
    Ok(Value::Bool(!equality(&a.value, &b.value, &globals.memory)).into_stored(area))
}

/// What an operator gives on values that an arena admits, the arena admits.
pub proof fn lemma_result_admitted(
    b: Binary,
    x: StoredValueView,
    y: StoredValueView,
    area: CodeArea,
    g: &Globals,
    r: StoredValueView,
)
    requires
        g.memory.admits(x.value),
        g.memory.admits(y.value),
        binary_result(b, x, y, area, g, Ok(r)),
    ensures
        g.memory.admits(r.value),
{
    match b {
        Binary::Arith(op) => {
            match (x.value, y.value) {
                (ValueView::Array(s), ValueView::Array(t)) => {
                    if op is Plus {
                        assert forall|i: int| 0 <= i < r.value.parts().len() implies g.memory.contains(
                            #[trigger] r.value.parts()[i],
                        ) by {
                            if i < s.len() {
                                assert(x.value.parts()[i] == s[i]);
                            } else {
                                assert(y.value.parts()[i - s.len()] == t[i - s.len()]);
                            }
                        }
                    }
                },
                _ => {},
            }
        },
        _ => {},
    }
}

/// What [`run_binary`] does to the context and the shared state, and how the
/// context goes on.
pub open spec fn binary_effect(
    kind: Binary,
    ctx0: &Context,
    ctx1: &Context,
    g0: &Globals,
    g1: &Globals,
    code: &Code,
    func: usize,
    index: usize,
    r: Result<Flow, RuntimeError>,
) -> bool {
    &&& (kept(ctx0, g0, ctx1, g1))
    &&& (ctx1.same_but_stack(ctx0))
    &&& (g1.memory.extends(&g0.memory))
    &&& (g1.calls == g0.calls)
    &&& (g1.call_counter == g0.call_counter)
    &&& (g1.arbitrary_ids == g0.arbitrary_ids)
    &&& (g1.objects == g0.objects)
    &&& (g1.triggers == g0.triggers)
    &&& (g1.printed == g0.printed)
    &&& (ctx0.stack@.len() < 2 ==> fails_malformed(r, func, index))
    &&& (ctx0.stack@.len() >= 2 ==> ({
            let n = ctx0.stack@.len();
            let x = at(g0, ctx0.stack@[n - 2]);
            let y = at(g0, ctx0.stack@[n - 1]);
            match r {
                Ok(f) => f is Next && replaced_top(ctx0, ctx1, 2) && binary_result(
                    kind,
                    x,
                    y,
                    code.area_of(func, index),
                    g0,
                    Ok(at(g1, ctx1.stack@.last())),
                ),
                Err(e) => dropped_top(ctx0, ctx1, 2) && (e@
                    == RuntimeErrorView::MemoryExhausted || binary_result(
                    kind,
                    x,
                    y,
                    code.area_of(func, index),
                    g0,
                    Err(e@),
                )),
            }
        }))
}

/// Runs an instruction with two operands: takes `b` and then `a` off the
/// stack, applies the operator and puts the result, stored in a new slot,
/// on.
pub fn run_binary<F: FloatUnit>(
    kind: Binary,
    ctx: &mut Context,
    globals: &mut Globals,
    code: &Code,
    fl: &F,
    func: usize,
    index: usize,
) -> (r: Result<Flow, RuntimeError>)
    requires
        ready(old(ctx), old(globals)),
    ensures
        out_of_room(r, final(globals)),
        nothing_pushed(r, old(ctx), final(ctx)),
        binary_effect(kind, old(ctx), final(ctx), old(globals), final(globals), code, func, index, r),
{
    let area = code.area_at(func, index);
    let ghost s0 = ctx.stack@;
    let kb = match ctx.pop_key() {
        Some(k) => k,
        None => {
            return Err(malformed(func, index));
        },
    };
    let ka = match ctx.pop_key() {
        Some(k) => k,
        None => {
            ctx.push_key(kb);
            assert(ctx.stack@ =~= s0);
            return Err(malformed(func, index));
        },
    };
    assert(ctx.stack@ =~= s0.take(s0.len() - 2));
    assert(ctx.live(&globals.memory));
    assert(globals.memory.contains(ka) && globals.memory.contains(kb));
    assert(globals.memory.admits(globals.memory.value(ka)));
    assert(globals.memory.admits(globals.memory.value(kb)));
    let res = {
        let a = globals.memory.get(ka);
        let b = globals.memory.get(kb);
        match kind {
            Binary::Arith(op) => binary(op, a, b, area, fl),
            Binary::Eq => eq(a, b, area, globals),
            Binary::NotEq => not_eq(a, b, area, globals),
            Binary::Is => is_op(a, b, area),
        }
    };
    match res {
        Ok(v) => {
            proof {
                lemma_result_admitted(
                    kind,
                    at(globals, ka),
                    at(globals, kb),
                    area,
                    globals,
                    v@,
                );
            }
            match push_value(ctx, globals, v) {
                Ok(_) => Ok(Flow::Next),
                Err(e) => Err(e),
            }
        },
        Err(e) => Err(e),
    }
}

/// An instruction that takes one operand off the stack and puts one result
/// on.
#[derive(Clone, Copy, Debug, PartialEq, Eq, Structural)]
pub enum Unary {
    Negate,
    Not,
}

/// Whether `r` is what the instruction `u` gives on the operand `x` at
/// `area`.
pub open spec fn unary_result(
    u: Unary,
    x: StoredValueView,
    area: CodeArea,
    r: Result<StoredValueView, RuntimeErrorView>,
) -> bool {
    match u {
        Unary::Negate => unary_post(negated(x.value), "-"@, x, area, r),
        Unary::Not => unary_post(inverted(x.value), "!"@, x, area, r),
    }
}

/// What [`run_unary`] does to the context and the shared state, and how the
/// context goes on.
pub open spec fn unary_effect(
    kind: Unary,
    ctx0: &Context,
    ctx1: &Context,
    g0: &Globals,
    g1: &Globals,
    code: &Code,
    func: usize,
    index: usize,
    r: Result<Flow, RuntimeError>,
) -> bool {
    &&& (kept(ctx0, g0, ctx1, g1))
    &&& (ctx1.same_but_stack(ctx0))
    &&& (g1.memory.extends(&g0.memory))
    &&& (g1.calls == g0.calls)
    &&& (g1.call_counter == g0.call_counter)
    &&& (g1.arbitrary_ids == g0.arbitrary_ids)
    &&& (g1.objects == g0.objects)
    &&& (g1.triggers == g0.triggers)
    &&& (g1.printed == g0.printed)
    &&& (ctx0.stack@.len() < 1 ==> fails_malformed(r, func, index))
    &&& (ctx0.stack@.len() >= 1 ==> ({
            let x = at(g0, ctx0.stack@.last());
            match r {
                Ok(f) => f is Next && replaced_top(ctx0, ctx1, 1) && unary_result(
                    kind,
                    x,
                    code.area_of(func, index),
                    Ok(at(g1, ctx1.stack@.last())),
                ),
                Err(e) => dropped_top(ctx0, ctx1, 1) && (e@
                    == RuntimeErrorView::MemoryExhausted || unary_result(
                    kind,
                    x,
                    code.area_of(func, index),
                    Err(e@),
                )),
            }
        }))
}

/// Runs an instruction with one operand: takes it off the stack, applies
/// the operator and puts the result, stored in a new slot, on.
pub fn run_unary(
    kind: Unary,
    ctx: &mut Context,
    globals: &mut Globals,
    code: &Code,
    func: usize,
    index: usize,
) -> (r: Result<Flow, RuntimeError>)
    requires
        ready(old(ctx), old(globals)),
    ensures
        out_of_room(r, final(globals)),
        nothing_pushed(r, old(ctx), final(ctx)),
        unary_effect(kind, old(ctx), final(ctx), old(globals), final(globals), code, func, index, r),
{
    let area = code.area_at(func, index);
    let ghost s0 = ctx.stack@;
    let ka = match ctx.pop_key() {
        Some(k) => k,
        None => {
            return Err(malformed(func, index));
        },
    };
    assert(ctx.stack@ =~= s0.take(s0.len() - 1));
    assert(ctx.live(&globals.memory));
    assert(globals.memory.contains(ka));
    let res = {
        let a = globals.memory.get(ka);
        match kind {
            Unary::Negate => unary_negate(a, area),
            Unary::Not => unary_not(a, area),
        }
    };
    match res {
        Ok(v) => {
            assert(v@.value.parts() =~= Seq::empty());
            assert(v@.value.captured() =~= Seq::empty());
            match push_value(ctx, globals, v) {
                Ok(_) => Ok(Flow::Next),
                Err(e) => Err(e),
            }
        },
        Err(e) => Err(e),
    }
}

/// The simple values that an instruction pushes as they are.
#[derive(Clone, Copy, Debug, PartialEq, Eq, Structural)]
pub enum Simple {
    Empty,
    Nothing,
    AnyPattern,
}

impl Simple {
    /// The value.
    pub open spec fn value(self) -> ValueView {
        match self {
            Simple::Empty => ValueView::Empty,
            Simple::Nothing => ValueView::Maybe(None),
            Simple::AnyPattern => ValueView::Pattern(crate::value::PatternView::Any),
        }
    }
}

/// Whether the instruction put `v`, stored in a new slot, on the stack and
/// changed nothing else.
pub open spec fn pushed(
    ctx0: &Context,
    g0: &Globals,
    ctx1: &Context,
    g1: &Globals,
    v: StoredValueView,
) -> bool {
    &&& replaced_top(ctx0, ctx1, 0)
    &&& ctx1.same_but_stack(ctx0)
    &&& !g0.memory.contains(ctx1.stack@.last())
    &&& g1.memory.slots() == g0.memory.slots().insert(
        ctx1.stack@.last(),
        g1.memory.slots()[ctx1.stack@.last()],
    )
    &&& at(g1, ctx1.stack@.last()) == v
    &&& g1.memory.extends(&g0.memory)
    &&& g1.arbitrary_ids == g0.arbitrary_ids
    &&& g1.objects == g0.objects
    &&& g1.triggers == g0.triggers
    &&& g1.printed == g0.printed
    &&& g1.calls == g0.calls
    &&& g1.call_counter == g0.call_counter
}

/// What [`run_push_simple`] does to the context and the shared state, and how the
/// context goes on.
pub open spec fn push_simple_effect(
    which: Simple,
    ctx0: &Context,
    ctx1: &Context,
    g0: &Globals,
    g1: &Globals,
    code: &Code,
    func: usize,
    index: usize,
    r: Result<Flow, RuntimeError>,
) -> bool {
    &&& (kept(ctx0, g0, ctx1, g1))
    &&& (ctx1.same_but_stack(ctx0))
    &&& (g1.memory.extends(&g0.memory))
    &&& (g1.calls == g0.calls)
    &&& (g1.call_counter == g0.call_counter)
    &&& (g1.arbitrary_ids == g0.arbitrary_ids)
    &&& (g1.objects == g0.objects)
    &&& (g1.triggers == g0.triggers)
    &&& (g1.printed == g0.printed)
    &&& (match r {
            Ok(f) => f is Next && pushed(
                ctx0,
                g0,
                ctx1,
                g1,
                StoredValueView { value: which.value(), def_area: code.area_of(func, index) },
            ),
            Err(e) => e@ == RuntimeErrorView::MemoryExhausted && ctx1.stack@ == ctx0.stack@,
        })
}

/// Runs `PushEmpty`, `PushNone` or `PushAnyPattern`: puts the value, stored
/// in a new slot, on the stack.
pub fn run_push_simple(
    which: Simple,
    ctx: &mut Context,
    globals: &mut Globals,
    code: &Code,
    func: usize,
    index: usize,
) -> (r: Result<Flow, RuntimeError>)
    requires
        ready(old(ctx), old(globals)),
    ensures
        out_of_room(r, final(globals)),
        nothing_pushed(r, old(ctx), final(ctx)),
        push_simple_effect(which, old(ctx), final(ctx), old(globals), final(globals), code, func, index, r),
{
    let area = code.area_at(func, index);
    let v = match which {
        Simple::Empty => Value::Empty,
        Simple::Nothing => Value::Maybe(None),
        Simple::AnyPattern => Value::Pattern(Pattern::Any),
    };
    assert(v@.parts() =~= Seq::empty());
    assert(v@.captured() =~= Seq::empty());
    match push_value(ctx, globals, v.into_stored(area)) {
        Ok(_) => {
            assert(old(ctx).stack@.take(old(ctx).stack@.len() as int) =~= old(ctx).stack@);
            Ok(Flow::Next)
        },
        Err(e) => Err(e),
    }
}

/// What [`run_load_const`] does to the context and the shared state, and how the
/// context goes on.
pub open spec fn load_const_effect(
    id: InstrNum,
    ctx0: &Context,
    ctx1: &Context,
    g0: &Globals,
    g1: &Globals,
    code: &Code,
    func: usize,
    index: usize,
    r: Result<Flow, RuntimeError>,
) -> bool {
    &&& (kept(ctx0, g0, ctx1, g1))
    &&& (ctx1.same_but_stack(ctx0))
    &&& (g1.memory.extends(&g0.memory))
    &&& (g1.calls == g0.calls)
    &&& (g1.call_counter == g0.call_counter)
    &&& (g1.arbitrary_ids == g0.arbitrary_ids)
    &&& (g1.objects == g0.objects)
    &&& (g1.triggers == g0.triggers)
    &&& (g1.printed == g0.printed)
    &&& (match r {
            Ok(f) => f is Next && id < code.constants@.len() && pushed(
                ctx0,
                g0,
                ctx1,
                g1,
                StoredValueView {
                    value: code.constants@[id as int].value(),
                    def_area: code.area_of(func, index),
                },
            ),
            Err(e) => ctx1.stack@ == ctx0.stack@ && if id < code.constants@.len() {
                e@ == RuntimeErrorView::MemoryExhausted
            } else {
                e@ == (RuntimeErrorView::MalformedBytecode { func, index })
            },
        })
}

/// Runs `LoadConst`: puts the constant, stored in a new slot, on the stack.
pub fn run_load_const(
    id: InstrNum,
    ctx: &mut Context,
    globals: &mut Globals,
    code: &Code,
    func: usize,
    index: usize,
) -> (r: Result<Flow, RuntimeError>)
    requires
        ready(old(ctx), old(globals)),
    ensures
        out_of_room(r, final(globals)),
        nothing_pushed(r, old(ctx), final(ctx)),
        load_const_effect(id, old(ctx), final(ctx), old(globals), final(globals), code, func, index, r),
{
    if (id as usize) >= code.constants.len() {
        return Err(malformed(func, index));
    }
    let area = code.area_at(func, index);
    let v = code.constants[id as usize].to_value();
    match push_value(ctx, globals, v.into_stored(area)) {
        Ok(_) => {
            assert(old(ctx).stack@.take(old(ctx).stack@.len() as int) =~= old(ctx).stack@);
            Ok(Flow::Next)
        },
        Err(e) => Err(e),
    }
}

/// What [`run_pop_top`] does to the context and the shared state, and how the
/// context goes on.
pub open spec fn pop_top_effect(
    ctx0: &Context,
    ctx1: &Context,
    g0: &Globals,
    r: Flow,
) -> bool {
    &&& (kept(ctx0, g0, ctx1, g0))
    &&& (ctx1.same_but_stack(ctx0))
    &&& (r is Next)
    &&& (ctx1.stack@ == (if ctx0.stack@.len() > 0 {
            ctx0.stack@.drop_last()
        } else {
            ctx0.stack@
        }))
}

/// Runs `PopTop`: takes the top of the stack off, if there is one.
pub fn run_pop_top(ctx: &mut Context, globals: &Globals) -> (r: Flow)
    requires
        ready(old(ctx), globals),
    ensures
        pop_top_effect(old(ctx), final(ctx), globals, r),
{
    ctx.pop_key();
    Flow::Next
}

/// What [`run_jump`] does to the context and the shared state, and how the
/// context goes on.
pub open spec fn jump_effect(
    id: InstrNum,
    code: &Code,
    func: usize,
    index: usize,
    r: Result<Flow, RuntimeError>,
) -> bool {
    &&& (if id < code.destinations@.len() {
            goes_to(r, code.destinations@[id as int])
        } else {
            fails_malformed(r, func, index)
        })
}

/// Runs `Jump`: goes on at the destination.
pub fn run_jump(id: InstrNum, code: &Code, func: usize, index: usize) -> (r: Result<
    Flow,
    RuntimeError,
>)
    ensures
        jump_effect(id, code, func, index, r),
{
    if (id as usize) < code.destinations.len() {
        Ok(Flow::Goto(code.destinations[id as usize]))
    } else {
        Err(malformed(func, index))
    }
}

/// What [`run_jump_if_false`] does to the context and the shared state, and how the
/// context goes on.
pub open spec fn jump_if_false_effect(
    id: InstrNum,
    ctx0: &Context,
    ctx1: &Context,
    g0: &Globals,
    code: &Code,
    func: usize,
    index: usize,
    r: Result<Flow, RuntimeError>,
) -> bool {
    &&& (kept(ctx0, g0, ctx1, g0))
    &&& (ctx1.same_but_stack(ctx0))
    &&& (ctx0.stack@.len() == 0 ==> fails_malformed(r, func, index))
    &&& (ctx0.stack@.len() > 0 ==> ctx1.stack@ == ctx0.stack@.drop_last() && ({
            let x = at(g0, ctx0.stack@.last());
            match x.value {
                ValueView::Bool(true) => goes_on(r),
                ValueView::Bool(false) => if id < code.destinations@.len() {
                    goes_to(r, code.destinations@[id as int])
                } else {
                    fails_malformed(r, func, index)
                },
                _ => fails(
                    r,
                    RuntimeErrorView::CannotConvert { a: x, to: crate::value::ValueType::Bool },
                ),
            }
        }))
}

/// Runs `JumpIfFalse`: takes a truth value off the stack and goes on at
/// the destination where it is false.
pub fn run_jump_if_false(
    id: InstrNum,
    ctx: &mut Context,
    globals: &Globals,
    code: &Code,
    func: usize,
    index: usize,
) -> (r: Result<Flow, RuntimeError>)
    requires
        ready(old(ctx), globals),
    ensures
        out_of_room(r, globals),
        nothing_pushed(r, old(ctx), final(ctx)),
        jump_if_false_effect(id, old(ctx), final(ctx), globals, code, func, index, r),
{
    let k = match ctx.pop_key() {
        Some(k) => k,
        None => {
            return Err(malformed(func, index));
        },
    };
    assert(ctx.live(&globals.memory));
    assert(globals.memory.contains(k));
    match to_bool(globals.memory.get(k)) {
        Ok(true) => Ok(Flow::Next),
        Ok(false) => run_jump(id, code, func, index),
        Err(e) => Err(e),
    }
}

} // verus!
