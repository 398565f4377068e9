//! The interpreter: one instruction of one context, one tick of all
//! contexts, and the run.

use vstd::prelude::*;
use crate::blocks::{
    index_effect, iter_next_effect, load_type_effect, make_macro_pattern_effect,
    pop_block_effect, print_effect, push_try_effect, run_index, run_iter_next, run_load_type,
    run_make_macro_pattern, run_pop_block, run_print, run_push_try, run_to_iter, to_iter_effect,
};
use crate::bytecode::{Code, Instruction};
use crate::contexts::{lemma_live_covers, Block, Context, FullContext, ReturnType};
use crate::control::{
    enter_arrow_effect, enter_trigger_function_effect, return_value_effect, run_enter_arrow,
    run_enter_trigger_function, run_return_value, run_split, run_yeet, split_effect, yeet_effect,
};
use crate::data::{
    build_array_effect, build_dict_effect, load_var_effect, run_build_array, run_build_dict,
    run_load_var, run_set_var, run_wrap_maybe, set_var_effect, wrap_maybe_effect,
};
use crate::emit::{
    add_object_effect, build_object_effect, load_arbitrary_id_effect, run_add_object,
    run_build_object, run_load_arbitrary_id, run_trigger_func_call, trigger_func_call_effect,
};
use crate::error::RuntimeError;
use crate::float::FloatUnit;
use crate::flow::{
    goes_on, lemma_follows_chain, lemma_follows_self, nothing_pushed, out_of_room, ready, Flow,
};
use crate::globals::Globals;
use crate::ids::IdClass;
use crate::macros::{call_effect, make_macro_effect, run_call, run_make_macro};
use crate::memory::Memory;
use crate::objects::ObjectMode;
use crate::ops::{
    binary_effect, jump_effect, jump_if_false_effect, load_const_effect, pop_top_effect,
    push_simple_effect, run_binary, run_jump, run_jump_if_false, run_load_const, run_pop_top,
    run_push_simple, run_unary, unary_effect, Binary, Simple, Unary,
};
use crate::value_ops::Operator;

verus! {

/// Whether the state after an instruction is one that an instruction
/// leaves, given how the context goes on: the next instruction can run, the
/// shared state only grew, the context has as many variables as before, and
/// its frames are as they were, but for the frame that a call pushed. A copy
/// that a split made holds keys of slots only and stands where the context
/// stood.
pub open spec fn stepped(
    ctx0: &Context,
    g0: &Globals,
    ctx1: &Context,
    g1: &Globals,
    r: Result<Flow, RuntimeError>,
) -> bool {
    &&& ready(ctx1, g1)
    &&& g1.follows(g0)
    &&& out_of_room(r, g1)
    &&& nothing_pushed(r, ctx0, ctx1)
    &&& ctx1.vars@.len() == ctx0.vars@.len()
    &&& match r {
        Ok(Flow::Called) => ctx1.pos@.len() == ctx0.pos@.len() + 1 && ctx1.pos@.drop_last()
            == ctx0.pos@,
        Ok(Flow::Fork { inside, outside_at, inside_at }) => ctx1.pos == ctx0.pos && inside.live(
            &g1.memory,
        ) && inside.pos@ == ctx0.pos@ && inside.vars@.len() == ctx0.vars@.len(),
        Ok(Flow::Halt) => true,
        _ => ctx1.pos == ctx0.pos,
    }
}

/// What the instruction `instr`, which stands at `index` of function
/// `func`, does to the context and the shared state, and how the context
/// goes on: the effect of the instruction, as its own function states it.
/// The instructions that wait for a type registry or for a rule of merging
/// change nothing.
pub open spec fn instruction_effect(
    instr: Instruction,
    ctx0: &Context,
    ctx1: &Context,
    g0: &Globals,
    g1: &Globals,
    code: &Code,
    func: usize,
    index: usize,
    r: Result<Flow, RuntimeError>,
) -> bool {
    match instr {
        Instruction::LoadConst(id) => load_const_effect(id, ctx0, ctx1, g0, g1, code, func, index, r),
        Instruction::LoadVar(id) => load_var_effect(id, ctx0, ctx1, g0, func, index, r) && *g1
            == *g0,
        Instruction::SetVar(id) => set_var_effect(id, ctx0, ctx1, g0, g1, func, index, r),
        Instruction::Plus => binary_effect(Binary::Arith(Operator::Plus), ctx0, ctx1, g0, g1, code, func, index, r),
        Instruction::Minus => binary_effect(Binary::Arith(Operator::Minus), ctx0, ctx1, g0, g1, code, func, index, r),
        Instruction::Mult => binary_effect(Binary::Arith(Operator::Mult), ctx0, ctx1, g0, g1, code, func, index, r),
        Instruction::Div => binary_effect(Binary::Arith(Operator::Div), ctx0, ctx1, g0, g1, code, func, index, r),
        Instruction::Mod => binary_effect(Binary::Arith(Operator::Mod), ctx0, ctx1, g0, g1, code, func, index, r),
        Instruction::Pow => binary_effect(Binary::Arith(Operator::Pow), ctx0, ctx1, g0, g1, code, func, index, r),
        Instruction::Greater => binary_effect(Binary::Arith(Operator::Greater), ctx0, ctx1, g0, g1, code, func, index, r),
        Instruction::GreaterEq => binary_effect(Binary::Arith(Operator::GreaterEq), ctx0, ctx1, g0, g1, code, func, index, r),
        Instruction::Lesser => binary_effect(Binary::Arith(Operator::Lesser), ctx0, ctx1, g0, g1, code, func, index, r),
        Instruction::LesserEq => binary_effect(Binary::Arith(Operator::LesserEq), ctx0, ctx1, g0, g1, code, func, index, r),
        Instruction::Eq => binary_effect(Binary::Eq, ctx0, ctx1, g0, g1, code, func, index, r),
        Instruction::NotEq => binary_effect(Binary::NotEq, ctx0, ctx1, g0, g1, code, func, index, r),
        Instruction::Is => binary_effect(Binary::Is, ctx0, ctx1, g0, g1, code, func, index, r),
        Instruction::Negate => unary_effect(Unary::Negate, ctx0, ctx1, g0, g1, code, func, index, r),
        Instruction::Not => unary_effect(Unary::Not, ctx0, ctx1, g0, g1, code, func, index, r),
        Instruction::Jump(id) => jump_effect(id, code, func, index, r) && *ctx1 == *ctx0 && *g1
            == *g0,
        Instruction::JumpIfFalse(id) => jump_if_false_effect(
            id,
            ctx0,
            ctx1,
            g0,
            code,
            func,
            index,
            r,
        ) && *g1 == *g0,
        Instruction::ToIter => to_iter_effect(ctx0, ctx1, g0, code, func, index, r) && *g1 == *g0,
        Instruction::IterNext(to) => iter_next_effect(to, ctx0, ctx1, g0, g1, code, func, index, r),
        Instruction::PopBlock(n) => (r matches Ok(f) && pop_block_effect(n, ctx0, ctx1, g0, f))
            && *g1 == *g0,
        Instruction::PushTry(to) => push_try_effect(to, ctx0, ctx1, g0, code, func, index, r)
            && *g1 == *g0,
        Instruction::YeetContext => (r matches Ok(f) && yeet_effect(ctx0, ctx1, f)) && *g1 == *g0,
        Instruction::ReturnValue => (r matches Ok(f) && return_value_effect(ctx0, ctx1, f)) && *g1
            == *g0,
        Instruction::BuildArray(n) => build_array_effect(n, ctx0, ctx1, g0, g1, code, func, index, r),
        Instruction::BuildDict(id) => build_dict_effect(id, ctx0, ctx1, g0, g1, code, func, index, r),
        Instruction::PushEmpty => push_simple_effect(Simple::Empty, ctx0, ctx1, g0, g1, code, func, index, r),
        Instruction::PushNone => push_simple_effect(Simple::Nothing, ctx0, ctx1, g0, g1, code, func, index, r),
        Instruction::WrapMaybe => wrap_maybe_effect(ctx0, ctx1, g0, g1, code, func, index, r),
        Instruction::PushAnyPattern => push_simple_effect(Simple::AnyPattern, ctx0, ctx1, g0, g1, code, func, index, r),
        Instruction::MakeMacro(id) => make_macro_effect(id, ctx0, ctx1, g0, g1, code, func, index, r),
        Instruction::MakeMacroPattern(n) => make_macro_pattern_effect(n, ctx0, ctx1, g0, g1, code, func, index, r),
        Instruction::BuildObject(n) => build_object_effect(n, ObjectMode::Object, ctx0, ctx1, g0, g1, code, func, index, r),
        Instruction::BuildTrigger(n) => build_object_effect(n, ObjectMode::Trigger, ctx0, ctx1, g0, g1, code, func, index, r),
        Instruction::AddObject => add_object_effect(ctx0, ctx1, g0, g1, func, index, r),
        Instruction::TriggerFuncCall => trigger_func_call_effect(ctx0, ctx1, g0, g1, func, index, r),
        Instruction::LoadArbitraryId(class) => load_arbitrary_id_effect(class, ctx0, ctx1, g0, g1, code, func, index, r),
        Instruction::EnterTriggerFunction(id) => enter_trigger_function_effect(id, ctx0, ctx1, g0, g1, code, func, index, r),
        Instruction::EnterArrowStatement(id) => enter_arrow_effect(id, ctx0, ctx1, g0, g1, code, func, index, r),
        Instruction::Call(id) => call_effect(id, ctx0, ctx1, g0, g1, code, func, index, r),
        Instruction::Index => index_effect(ctx0, ctx1, g0, g1, func, index, r),
        Instruction::Print => print_effect(ctx0, ctx1, g0, g1, func, index, r),
        Instruction::PopTop => (r matches Ok(f) && pop_top_effect(ctx0, ctx1, g0, f)) && *g1 == *g0,
        Instruction::Split => split_effect(ctx0, ctx1, g0, g1, func, index, r),
        Instruction::LoadType(id) => load_type_effect(id, code, func, index, r) && *ctx1 == *ctx0
            && *g1 == *g0,
        Instruction::MergeContexts | Instruction::TypeDef(_) | Instruction::Impl(_) | Instruction::Instance(
            _,
        ) => goes_on(r) && *ctx1 == *ctx0 && *g1 == *g0,
    }
}

/// The class whose next arbitrary id the instruction hands out, if it hands
/// one out.
pub open spec fn allocates(instr: Instruction) -> Option<IdClass> {
    match instr {
        Instruction::LoadArbitraryId(class) => Some(class),
        Instruction::EnterTriggerFunction(_) => Some(IdClass::Group),
        _ => None,
    }
}

/// No instruction moves a counter of arbitrary ids but one that hands an
/// id out, and that one moves the counter of its class by one and leaves
/// the others: what it hands out is the number of ids of the class handed
/// out before, so no id is handed out twice.
pub proof fn lemma_counters_step(
    instr: Instruction,
    ctx0: &Context,
    ctx1: &Context,
    g0: &Globals,
    g1: &Globals,
    code: &Code,
    func: usize,
    index: usize,
    r: Result<Flow, RuntimeError>,
)
    requires
        instruction_effect(instr, ctx0, ctx1, g0, g1, code, func, index, r),
    ensures
        g1.arbitrary_ids == g0.arbitrary_ids || (allocates(instr) matches Some(class)
            && g0.arbitrary_ids.of(class) < 0xFFFF && g1.arbitrary_ids == g0.arbitrary_ids.with(
            class,
            (g0.arbitrary_ids.of(class) + 1) as u16,
        )),
{
}

/// Runs the instruction `instr`, which stands at `index` of function
/// `func`, on the context.
pub fn run_instruction<F: FloatUnit>(
    instr: Instruction,
    ctx: &mut Context,
    globals: &mut Globals,
    code: &Code,
    fl: &F,
    func: usize,
    index: usize,
) -> (r: Result<Flow, RuntimeError>)
    requires
        ready(old(ctx), old(globals)),
    ensures
        stepped(old(ctx), old(globals), final(ctx), final(globals), r),
        instruction_effect(
            instr,
            old(ctx),
            final(ctx),
            old(globals),
            final(globals),
            code,
            func,
            index,
            r,
        ),
{
    proof {
        lemma_follows_self(globals);
    }
    match instr {
        Instruction::LoadConst(id) => run_load_const(id, ctx, globals, code, func, index),
        Instruction::LoadVar(id) => run_load_var(id, ctx, globals, func, index),
        Instruction::SetVar(id) => run_set_var(id, ctx, globals, func, index),
        Instruction::Plus => run_binary(
            Binary::Arith(Operator::Plus),
            ctx,
            globals,
            code,
            fl,
            func,
            index,
        ),
        Instruction::Minus => run_binary(
            Binary::Arith(Operator::Minus),
            ctx,
            globals,
            code,
            fl,
            func,
            index,
        ),
        Instruction::Mult => run_binary(
            Binary::Arith(Operator::Mult),
            ctx,
            globals,
            code,
            fl,
            func,
            index,
        ),
        Instruction::Div => run_binary(
            Binary::Arith(Operator::Div),
            ctx,
            globals,
            code,
            fl,
            func,
            index,
        ),
        Instruction::Mod => run_binary(
            Binary::Arith(Operator::Mod),
            ctx,
            globals,
            code,
            fl,
            func,
            index,
        ),
        Instruction::Pow => run_binary(
            Binary::Arith(Operator::Pow),
            ctx,
            globals,
            code,
            fl,
            func,
            index,
        ),
        Instruction::Greater => run_binary(
            Binary::Arith(Operator::Greater),
            ctx,
            globals,
            code,
            fl,
            func,
            index,
        ),
        Instruction::GreaterEq => run_binary(
            Binary::Arith(Operator::GreaterEq),
            ctx,
            globals,
            code,
            fl,
            func,
            index,
        ),
        Instruction::Lesser => run_binary(
            Binary::Arith(Operator::Lesser),
            ctx,
            globals,
            code,
            fl,
            func,
            index,
        ),
        Instruction::LesserEq => run_binary(
            Binary::Arith(Operator::LesserEq),
            ctx,
            globals,
            code,
            fl,
            func,
            index,
        ),
        Instruction::Eq => run_binary(Binary::Eq, ctx, globals, code, fl, func, index),
        Instruction::NotEq => run_binary(Binary::NotEq, ctx, globals, code, fl, func, index),
        Instruction::Is => run_binary(Binary::Is, ctx, globals, code, fl, func, index),
        Instruction::Negate => run_unary(Unary::Negate, ctx, globals, code, func, index),
        Instruction::Not => run_unary(Unary::Not, ctx, globals, code, func, index),
        Instruction::Jump(id) => run_jump(id, code, func, index),
        Instruction::JumpIfFalse(id) => run_jump_if_false(id, ctx, globals, code, func, index),
        Instruction::ToIter => run_to_iter(ctx, globals, code, func, index),
        Instruction::IterNext(to) => run_iter_next(to, ctx, globals, code, func, index),
        Instruction::PopBlock(n) => Ok(run_pop_block(n, ctx, globals)),
        Instruction::PushTry(to) => run_push_try(to, ctx, globals, code, func, index),
        Instruction::YeetContext => Ok(run_yeet(ctx)),
        Instruction::ReturnValue => Ok(run_return_value(ctx)),
        Instruction::BuildArray(n) => run_build_array(n, ctx, globals, code, func, index),
        Instruction::BuildDict(id) => run_build_dict(id, ctx, globals, code, func, index),
        Instruction::PushEmpty => run_push_simple(Simple::Empty, ctx, globals, code, func, index),
        Instruction::PushNone => run_push_simple(
            Simple::Nothing,
            ctx,
            globals,
            code,
            func,
            index,
        ),
        Instruction::WrapMaybe => run_wrap_maybe(ctx, globals, code, func, index),
        Instruction::PushAnyPattern => run_push_simple(
            Simple::AnyPattern,
            ctx,
            globals,
            code,
            func,
            index,
        ),
        Instruction::MakeMacro(id) => run_make_macro(id, ctx, globals, code, func, index),
        Instruction::MakeMacroPattern(n) => run_make_macro_pattern(
            n,
            ctx,
            globals,
            code,
            func,
            index,
        ),
        Instruction::BuildObject(n) => run_build_object(
            n,
            ObjectMode::Object,
            ctx,
            globals,
            code,
            fl,
            func,
            index,
        ),
        Instruction::BuildTrigger(n) => run_build_object(
            n,
            ObjectMode::Trigger,
            ctx,
            globals,
            code,
            fl,
            func,
            index,
        ),
        Instruction::AddObject => run_add_object(ctx, globals, func, index),
        Instruction::TriggerFuncCall => run_trigger_func_call(ctx, globals, func, index),
        Instruction::LoadArbitraryId(class) => run_load_arbitrary_id(
            class,
            ctx,
            globals,
            code,
            func,
            index,
        ),
        Instruction::EnterTriggerFunction(id) => run_enter_trigger_function(
            id,
            ctx,
            globals,
            code,
            func,
            index,
        ),
        Instruction::EnterArrowStatement(id) => run_enter_arrow(
            id,
            ctx,
            globals,
            code,
            func,
            index,
        ),
        Instruction::Call(id) => {
            let r = run_call(id, ctx, globals, code, func, index);
            assert(r is Ok ==> ctx.pos@.drop_last() =~= old(ctx).pos@);
            r
        },
        Instruction::Index => run_index(ctx, globals, func, index),
        Instruction::Print => run_print(ctx, globals, fl, func, index),
        Instruction::PopTop => Ok(run_pop_top(ctx, globals)),
        Instruction::Split => run_split(ctx, globals, func, index),
        Instruction::LoadType(id) => run_load_type(id, code, func, index),
        // These wait for the type registry and for a rule of merging: they do nothing.
        Instruction::MergeContexts => Ok(Flow::Next),
        Instruction::TypeDef(_) => Ok(Flow::Next),
        Instruction::Impl(_) => Ok(Flow::Next),
        Instruction::Instance(_) => Ok(Flow::Next),
    }
}

/// The index of the innermost `try` among the blocks, if there is one.
pub open spec fn innermost_try(blocks: Seq<Block>) -> Option<int>
    decreases blocks.len(),
{
    if blocks.len() == 0 {
        None
    } else if blocks.last() is Try {
        Some(blocks.len() - 1)
    } else {
        innermost_try(blocks.drop_last())
    }
}

/// Whether `after` and `back` are what handing the error `e` to the context
/// `before` gives: where the error can be caught and a `try` block is open,
/// the blocks inside the innermost one and the block itself are closed, the
/// context stands at the handler and nothing comes back; else the error
/// comes back.
pub open spec fn unwound(
    before: &Context,
    e: RuntimeError,
    after: &Context,
    back: Option<RuntimeError>,
    code: &Code,
    g: &Globals,
) -> bool {
    &&& ready(after, g)
    &&& after.vars@.len() == before.vars@.len()
    &&& after.group == before.group
    &&& after.stack == before.stack
    &&& after.returned == before.returned
    &&& match back {
        Some(b) => b@ == e@ && after.pos == before.pos && after.vars == before.vars && (
        !e@.catchable() || innermost_try(before.block_stack@) is None),
        None => e@.catchable() && (innermost_try(before.block_stack@) matches Some(at)
            && after.block_stack@ == before.block_stack@.take(at) && after.pos@
            == Context::settled(
            before.pos@.update(
                before.pos@.len() - 1,
                (before.pos@.last().0, before.block_stack@[at]->Try_0, before.pos@.last().2),
            ),
            code,
            g.calls@,
        ) && after.vars_view() == Context::settled_vars(
            before.pos@.update(
                before.pos@.len() - 1,
                (before.pos@.last().0, before.block_stack@[at]->Try_0, before.pos@.last().2),
            ),
            before.vars_view(),
            code,
            g.calls@,
        )),
    }
}

/// Whether `after` is `before` moved to the instruction `to` of its current
/// function, or, where that is past the end, returned from it.
pub open spec fn moved_to(before: &Context, after: &Context, to: usize, code: &Code, g: &Globals) -> bool {
    &&& before.pos@.len() > 0
    &&& after.pos@ == Context::settled(
        before.pos@.update(
            before.pos@.len() - 1,
            (before.pos@.last().0, to, before.pos@.last().2),
        ),
        code,
        g.calls@,
    )
    &&& after.group == before.group
    &&& after.id == before.id
    &&& after.stack == before.stack
    &&& after.block_stack == before.block_stack
    &&& after.returned == before.returned
    &&& after.vars@.len() == before.vars@.len()
    &&& after.vars_view() == Context::settled_vars(
        before.pos@.update(
            before.pos@.len() - 1,
            (before.pos@.last().0, to, before.pos@.last().2),
        ),
        before.vars_view(),
        code,
        g.calls@,
    )
}

/// Whether the tree `tree` and the error `err` are what comes of the context
/// `ctx`, which stood at `index` and has run its instruction, going on as
/// `flow` says: it moves to the next instruction or to where it jumps, stays
/// where a call or its end put it, stands beside its copy after a split, or
/// hands its error to its `try` blocks.
pub open spec fn placed(
    ctx: &Context,
    flow: Result<Flow, RuntimeError>,
    index: usize,
    code: &Code,
    g: &Globals,
    tree: FullContext,
    err: Option<RuntimeError>,
) -> bool {
    match flow {
        Ok(Flow::Next) => err is None && (tree matches FullContext::Single(c) && moved_to(
            ctx,
            &c,
            Context::next_index(index, 1),
            code,
            g,
        )),
        Ok(Flow::Goto(to)) => err is None && (tree matches FullContext::Single(c) && moved_to(
            ctx,
            &c,
            to,
            code,
            g,
        )),
        Ok(Flow::Halt) => err is None && tree == FullContext::Single(*ctx),
        Ok(Flow::Called) => err is None && tree == FullContext::Single(*ctx),
        Ok(Flow::Fork { inside, outside_at, inside_at }) => err is None && (tree matches FullContext::Split(
            l,
            r,
        ) && (*l matches FullContext::Single(a) && (*r matches FullContext::Single(b) && moved_to(
            ctx,
            &a,
            outside_at,
            code,
            g,
        ) && moved_to(&inside, &b, inside_at, code, g)))),
        Err(e) => tree matches FullContext::Single(c) && unwound(ctx, e, &c, err, code, g),
    }
}

/// Hands an error to the innermost `try` block of the context: the blocks
/// inside it and the block itself are closed and the context goes on at the
/// handler. An error that no block catches is given back, with all blocks
/// closed where it could have been caught.
pub fn unwind(ctx: &mut Context, e: RuntimeError, code: &Code, globals: &Globals) -> (r: Option<
    RuntimeError,
>)
    requires
        ready(old(ctx), globals),
        old(ctx).pos@.len() > 0,
    ensures
        unwound(old(ctx), e, final(ctx), r, code, globals),
{
    if !e.is_catchable() {
        return Some(e);
    }
    let ghost blocks = ctx.block_stack@;
    assert(blocks.take(blocks.len() as int) =~= blocks);
    loop
        invariant
            ready(ctx, globals),
            ctx.same_but_blocks(old(ctx)),
            blocks == old(ctx).block_stack@,
            ctx.block_stack@.len() <= blocks.len(),
            ctx.block_stack@ == blocks.take(ctx.block_stack@.len() as int),
            innermost_try(blocks) == innermost_try(ctx.block_stack@),
            old(ctx).pos@.len() > 0,
            e@.catchable(),
        decreases ctx.block_stack@.len(),
    {
        let ghost before = ctx.block_stack@;
        match ctx.pop_block() {
            Some(Block::Try(to)) => {
                assert(ctx.block_stack@ =~= blocks.take(before.len() - 1));
                assert(before.last() == Block::Try(to));
                assert(innermost_try(before) == Some(before.len() - 1));
                assert(blocks[before.len() - 1] == before.last());
                ctx.advance_to(code, to, globals);
                return None;
            },
            Some(Block::For(_)) => {
                assert(ctx.block_stack@ =~= blocks.take(before.len() - 1));
                assert(ctx.block_stack@ =~= before.drop_last());
                assert(innermost_try(before) == innermost_try(before.drop_last()));
            },
            None => {
                return Some(e);
            },
        }
    }
}

/// The leaf of a context.
fn leaf(c: Context) -> (r: FullContext)
    ensures
        r == FullContext::Single(c),
        r.leaves() == seq![c],
{
    FullContext::Single(c)
}

/// A tree of one or two contexts that hold keys of slots only holds keys
/// of slots only.
proof fn lemma_small_tree_live(t: &FullContext, m: &Memory)
    requires
        match t {
            FullContext::Single(c) => c.live(m),
            FullContext::Split(l, r) => **l matches FullContext::Single(a) && **r matches FullContext::Single(
                b,
            ) && a.live(m) && b.live(m),
        },
    ensures
        t.live(m),
{
    match t {
        FullContext::Single(c) => {
            assert forall|i: int| 0 <= i < t.leaves().len() implies (#[trigger] t.leaves()[i]).live(
                m,
            ) by {
                assert(t.leaves()[i] == *c);
            }
        },
        FullContext::Split(l, r) => {
            let a = l->Single_0;
            let b = r->Single_0;
            assert(l.leaves() =~= seq![a]);
            assert(r.leaves() =~= seq![b]);
            assert forall|i: int| 0 <= i < t.leaves().len() implies (#[trigger] t.leaves()[i]).live(
                m,
            ) by {
                if i == 0 {
                    assert(t.leaves()[i] == a);
                } else {
                    assert(t.leaves()[i] == b);
                }
            }
        },
    }
}

/// Whether the tree `tree`, the error `err` and the shared state `g1` are
/// what one step of the context `ctx` over the shared state `g0` gives: where
/// the context stands behind the end of its function, it returns from it;
/// else its instruction has its effect and the context goes on as the
/// instruction says.
pub open spec fn steps_to(
    ctx: Context,
    g0: &Globals,
    tree: FullContext,
    g1: &Globals,
    err: Option<RuntimeError>,
    code: &Code,
) -> bool {
    &&& (g1.wf())
    &&& (g1.follows(g0))
    &&& (tree.live(&g1.memory))
    &&& (1 <= tree.leaves().len() <= 2)
    &&& (forall|i: int|
            0 <= i < tree.leaves().len() ==> (#[trigger] tree.leaves()[i]).vars@.len()
                == ctx.vars@.len())
    &&& (err is Some ==> tree.leaves().len() == 1)
    &&& (ctx.pos@.last().1 >= code.len_of(ctx.pos@.last().0) ==> err is None && *g1 == *g0 && (tree matches FullContext::Single(c) && moved_to(
            &ctx,
            &c,
            ctx.pos@.last().1,
            code,
            g0,
        )))
    &&& (ctx.pos@.last().1 < code.len_of(ctx.pos@.last().0) ==> exists|
        ran: Context,
        flow: Result<Flow, RuntimeError>,
    | #[trigger]
            instruction_effect(
                code.bytecode_funcs@[ctx.pos@.last().0 as int].instructions@[ctx.pos@.last().1 as int],
                &ctx,
                &ran,
                g0,
                g1,
                code,
                ctx.pos@.last().0,
                ctx.pos@.last().1,
                flow,
            ) && placed(&ran, flow, ctx.pos@.last().1, code, g1, tree, err))
}

/// Advances one context by one instruction: returns from the current
/// function where the context stands behind its end; else runs the
/// instruction it stands at and moves it on. Gives what the context became, a
/// leaf or, after a split, two, and the error that nothing caught, if there
/// was one.
pub fn step<F: FloatUnit>(ctx: Context, globals: &mut Globals, code: &Code, fl: &F) -> (r: (
    FullContext,
    Option<RuntimeError>,
))
    requires
        ready(&ctx, old(globals)),
        ctx.pos@.len() > 0,
    ensures
        steps_to(ctx, old(globals), r.0, final(globals), r.1, code),
{
    let ghost ctx0 = ctx;
    let mut ctx = ctx;
    let n = ctx.pos.len();
    let (func, index, _) = ctx.pos[n - 1];
    proof {
        lemma_follows_self(globals);
    }
    let instr = match code.instruction(func, index) {
        Some(i) => i,
        None => {
            ctx.advance_to(code, index, globals);
            let t = leaf(ctx);
            proof {
                lemma_small_tree_live(&t, &globals.memory);
            }
            return (t, None);
        },
    };
    let flow = run_instruction(instr, &mut ctx, globals, code, fl, func, index);
    let ghost ran = ctx;
    let ghost flow0 = flow;
    assert(instruction_effect(instr, &ctx0, &ran, old(globals), globals, code, func, index, flow0));
    match flow {
        Ok(Flow::Next) => {
            ctx.advance_by(code, 1, globals);
            let t = leaf(ctx);
            proof {
                lemma_small_tree_live(&t, &globals.memory);
            }
            (t, None)
        },
        Ok(Flow::Goto(to)) => {
            ctx.advance_to(code, to, globals);
            let t = leaf(ctx);
            proof {
                lemma_small_tree_live(&t, &globals.memory);
            }
            (t, None)
        },
        Ok(Flow::Halt) => {
            let t = leaf(ctx);
            proof {
                lemma_small_tree_live(&t, &globals.memory);
            }
            (t, None)
        },
        Ok(Flow::Called) => {
            let t = leaf(ctx);
            proof {
                lemma_small_tree_live(&t, &globals.memory);
            }
            (t, None)
        },
        Ok(Flow::Fork { inside, outside_at, inside_at }) => {
            let mut inside = inside;
            ctx.advance_to(code, outside_at, globals);
            inside.advance_to(code, inside_at, globals);
            let t = FullContext::Split(Box::new(leaf(ctx)), Box::new(leaf(inside)));
            proof {
                lemma_small_tree_live(&t, &globals.memory);
                assert(t.leaves() =~= seq![ctx, inside]);
                assert(placed(&ran, flow0, index, code, globals, t, None));
            }
            (t, None)
        },
        Err(e) => {
            let back = unwind(&mut ctx, e, code, globals);
            let t = leaf(ctx);
            proof {
                lemma_small_tree_live(&t, &globals.memory);
                assert(placed(&ran, flow0, index, code, globals, t, back));
            }
            (t, back)
        },
    }
}

impl FullContext {
    /// Whether a context of the tree can be advanced: whether one has a
    /// frame and has not returned.
    pub open spec fn runnable(&self) -> bool
        decreases self,
    {
        match self {
            FullContext::Single(c) => c.returned is None && !c.finished(),
            FullContext::Split(l, r) => l.runnable() || r.runnable(),
        }
    }

    /// Whether a context of the tree returned by a `return`.
    pub open spec fn any_explicit(&self) -> bool
        decreases self,
    {
        match self {
            FullContext::Single(c) => c.returned == Some(ReturnType::Explicit),
            FullContext::Split(l, r) => l.any_explicit() || r.any_explicit(),
        }
    }

    /// Computes [`FullContext::runnable`].
    pub fn has_runnable(&self) -> (r: bool)
        ensures
            r == self.runnable(),
        decreases self,
    {
        match self {
            FullContext::Single(c) => c.returned.is_none() && c.pos.len() > 0,
            FullContext::Split(l, r) => l.has_runnable() || r.has_runnable(),
        }
    }

    /// Computes [`FullContext::any_explicit`].
    pub fn has_explicit(&self) -> (r: bool)
        ensures
            r == self.any_explicit(),
        decreases self,
    {
        match self {
            FullContext::Single(c) => match c.returned {
                Some(ReturnType::Explicit) => true,
                _ => false,
            },
            FullContext::Split(l, r) => l.has_explicit() || r.has_explicit(),
        }
    }

    /// The tree with every context that returned by running off the end
    /// ended.
    pub fn yeet_implicit(self) -> (r: FullContext)
        ensures
            r.leaves().len() == self.leaves().len(),
            forall|i: int|
                0 <= i < self.leaves().len() ==> #[trigger] ended_if_implicit(
                    &self.leaves()[i],
                    &r.leaves()[i],
                ),
        decreases self,
    {
        match self {
            FullContext::Single(c) => {
                let mut c = c;
                let ghost c0 = c;
                match c.returned {
                    Some(ReturnType::Implicit) => {
                        c.yeet();
                    },
                    _ => {},
                }
                let r = FullContext::Single(c);
                assert(ended_if_implicit(&c0, &c));
                assert forall|i: int| 0 <= i < self.leaves().len() implies #[trigger] ended_if_implicit(
                    &self.leaves()[i],
                    &r.leaves()[i],
                ) by {
                    assert(self.leaves()[i] == c0);
                    assert(r.leaves()[i] == c);
                }
                r
            },
            FullContext::Split(l, rt) => {
                let l2 = (*l).yeet_implicit();
                let r2 = (*rt).yeet_implicit();
                let r = FullContext::Split(Box::new(l2), Box::new(r2));
                assert forall|i: int| 0 <= i < self.leaves().len() implies #[trigger] ended_if_implicit(
                    &self.leaves()[i],
                    &r.leaves()[i],
                ) by {
                    if i < l.leaves().len() {
                        assert(self.leaves()[i] == l.leaves()[i]);
                        assert(r.leaves()[i] == l2.leaves()[i]);
                        assert(ended_if_implicit(&l.leaves()[i], &l2.leaves()[i]));
                    } else {
                        let j = i - l.leaves().len();
                        assert(self.leaves()[i] == rt.leaves()[j]);
                        assert(r.leaves()[i] == r2.leaves()[j]);
                        assert(ended_if_implicit(&rt.leaves()[j], &r2.leaves()[j]));
                    }
                }
                r
            },
        }
    }

    /// The tree with the mark of having returned taken off every context.
    pub fn clear_returns(self) -> (r: FullContext)
        ensures
            r.leaves().len() == self.leaves().len(),
            forall|i: int|
                0 <= i < self.leaves().len() ==> #[trigger] unmarked(
                    &self.leaves()[i],
                    &r.leaves()[i],
                ),
        decreases self,
    {
        match self {
            FullContext::Single(c) => {
                let mut c = c;
                let ghost c0 = c;
                c.returned = None;
                let r = FullContext::Single(c);
                assert(unmarked(&c0, &c));
                assert forall|i: int| 0 <= i < self.leaves().len() implies #[trigger] unmarked(
                    &self.leaves()[i],
                    &r.leaves()[i],
                ) by {
                    assert(self.leaves()[i] == c0);
                    assert(r.leaves()[i] == c);
                }
                r
            },
            FullContext::Split(l, rt) => {
                let l2 = (*l).clear_returns();
                let r2 = (*rt).clear_returns();
                let r = FullContext::Split(Box::new(l2), Box::new(r2));
                assert forall|i: int| 0 <= i < self.leaves().len() implies #[trigger] unmarked(
                    &self.leaves()[i],
                    &r.leaves()[i],
                ) by {
                    if i < l.leaves().len() {
                        assert(self.leaves()[i] == l.leaves()[i]);
                        assert(r.leaves()[i] == l2.leaves()[i]);
                        assert(unmarked(&l.leaves()[i], &l2.leaves()[i]));
                    } else {
                        let j = i - l.leaves().len();
                        assert(self.leaves()[i] == rt.leaves()[j]);
                        assert(r.leaves()[i] == r2.leaves()[j]);
                        assert(unmarked(&rt.leaves()[j], &r2.leaves()[j]));
                    }
                }
                r
            },
        }
    }
}

/// Whether `b` is `a`, ended where `a` returned by running off the end.
pub open spec fn ended_if_implicit(a: &Context, b: &Context) -> bool {
    &&& b.group == a.group
    &&& b.id == a.id
    &&& b.vars == a.vars
    &&& b.stack == a.stack
    &&& b.block_stack == a.block_stack
    &&& b.returned == a.returned
    &&& if a.returned == Some(ReturnType::Implicit) {
        b.finished()
    } else {
        b.pos == a.pos
    }
}

/// Whether `b` is `a` without the mark of having returned.
pub open spec fn unmarked(a: &Context, b: &Context) -> bool {
    *b == (Context { returned: None, ..*a })
}

/// A tree holds keys of slots only where its two halves do.
pub proof fn lemma_split_live(l: &FullContext, r: &FullContext, m: &Memory)
    ensures
        (FullContext::Split(Box::new(*l), Box::new(*r))).live(m) == (l.live(m) && r.live(m)),
{
    let t = FullContext::Split(Box::new(*l), Box::new(*r));
    if l.live(m) && r.live(m) {
        assert forall|i: int| 0 <= i < t.leaves().len() implies (#[trigger] t.leaves()[i]).live(
            m,
        ) by {
            if i < l.leaves().len() {
                assert(t.leaves()[i] == l.leaves()[i]);
            } else {
                assert(t.leaves()[i] == r.leaves()[i - l.leaves().len()]);
            }
        }
    }
    if t.live(m) {
        assert forall|i: int| 0 <= i < l.leaves().len() implies (#[trigger] l.leaves()[i]).live(
            m,
        ) by {
            assert(t.leaves()[i] == l.leaves()[i]);
        }
        assert forall|i: int| 0 <= i < r.leaves().len() implies (#[trigger] r.leaves()[i]).live(
            m,
        ) by {
            assert(t.leaves()[i + l.leaves().len()] == r.leaves()[i]);
        }
    }
}

/// A tree that holds keys of slots only keeps doing so in an arena that has
/// every key of the first.
pub proof fn lemma_tree_live_covers(t: &FullContext, m: &Memory, m2: &Memory)
    requires
        t.live(m),
        m2.covers(m),
    ensures
        t.live(m2),
{
    assert forall|i: int| 0 <= i < t.leaves().len() implies (#[trigger] t.leaves()[i]).live(m2) by {
        lemma_live_covers(&t.leaves()[i], m, m2);
    }
}

/// The contexts of a tree that have a frame left are contexts of the tree.
pub proof fn lemma_survivors_live(t: &FullContext, m: &Memory)
    requires
        t.live(m),
    ensures
        forall|i: int| 0 <= i < t.survivors().len() ==> (#[trigger] t.survivors()[i]).live(m),
    decreases t,
{
    match t {
        FullContext::Single(c) => {
            assert(t.leaves()[0] == *c);
        },
        FullContext::Split(l, r) => {
            lemma_split_live(l, r, m);
            lemma_survivors_live(l, m);
            lemma_survivors_live(r, m);
            assert forall|i: int| 0 <= i < t.survivors().len() implies (#[trigger] t.survivors()[i]).live(
                m,
            ) by {
                if i < l.survivors().len() {
                    assert(t.survivors()[i] == l.survivors()[i]);
                } else {
                    assert(t.survivors()[i] == r.survivors()[i - l.survivors().len()]);
                }
            }
        },
    }
}

/// Whether the tree `tree`, the error `err` and the shared state `g1` are
/// what one tick of the tree `node` over the shared state `g0` gives: every
/// context that has a frame and has not returned takes one step, from left to
/// right, each over the shared state that the one before left; the first
/// error that nothing catches ends the tick.
pub open spec fn ticked(
    node: FullContext,
    g0: &Globals,
    tree: FullContext,
    g1: &Globals,
    err: Option<RuntimeError>,
    code: &Code,
) -> bool
    decreases node,
{
    match node {
        FullContext::Single(c) => if c.returned is None && !c.finished() {
            steps_to(c, g0, tree, g1, err, code)
        } else {
            tree == node && *g1 == *g0 && err is None
        },
        FullContext::Split(l, r) => exists|left: FullContext, mid: Globals, first: Option<RuntimeError>|
            #[trigger] between(left, mid, first) && ticked(*l, g0, left, &mid, first, code) && (if first is Some {
                tree == FullContext::Split(Box::new(left), r) && *g1 == mid && err == first
            } else {
                exists|right: FullContext| #[trigger]
                    beside(left, right) && ticked(*r, &mid, right, g1, err, code) && tree
                        == FullContext::Split(Box::new(left), Box::new(right))
            }),
    }
}

/// What stands between the ticks of the two halves of a tree: the left
/// half after its tick, the shared state then, and its error. This holds of
/// anything; it names what [`ticked`] speaks of.
pub open spec fn between(left: FullContext, mid: Globals, first: Option<RuntimeError>) -> bool {
    true
}

/// The two halves of a tree after their ticks. This holds of anything; it
/// names what [`ticked`] speaks of.
pub open spec fn beside(left: FullContext, right: FullContext) -> bool {
    true
}

/// Advances every context of the tree that has a frame and has not
/// returned by one instruction, from left to right, up to the first error
/// that nothing catches. Gives the tree that came of it, whether a context
/// could be advanced, and the error.
pub fn tick<F: FloatUnit>(node: FullContext, globals: &mut Globals, code: &Code, fl: &F) -> (r: (
    FullContext,
    bool,
    Option<RuntimeError>,
))
    requires
        old(globals).wf(),
        node.live(&old(globals).memory),
    ensures
        final(globals).wf(),
        final(globals).follows(old(globals)),
        r.0.live(&final(globals).memory),
        r.0.leaves().len() >= node.leaves().len(),
        r.2 is None ==> r.1 == node.runnable(),
        !node.runnable() ==> r.2 is None && r.0 == node && *final(globals) == *old(globals),
        ticked(node, old(globals), r.0, final(globals), r.2, code),
    decreases node,
{
    proof {
        lemma_follows_self(globals);
    }
    match node {
        FullContext::Single(c) => {
            if c.returned.is_none() && c.pos.len() > 0 {
                assert(c.live(&globals.memory)) by {
                    assert(node.leaves()[0] == c);
                }
                let (t, e) = step(c, globals, code, fl);
                (t, true, e)
            } else {
                (FullContext::Single(c), false, None)
            }
        },
        FullContext::Split(l, r) => {
            proof {
                lemma_split_live(&l, &r, &globals.memory);
            }
            let ghost l0 = *l;
            let ghost r0 = *r;
            let (l2, moved_left, e1) = tick(*l, globals, code, fl);
            let ghost g1 = *globals;
            proof {
                lemma_tree_live_covers(&r, &old(globals).memory, &g1.memory);
            }
            match e1 {
                Some(e) => {
                    proof {
                        lemma_split_live(&l2, &r, &globals.memory);
                        assert(ticked(l0, old(globals), l2, &g1, Some(e), code));
                        assert(*globals == g1);
                        assert(between(l2, g1, Some(e)));
                        assert(ticked(
                            FullContext::Split(Box::new(l0), r),
                            old(globals),
                            FullContext::Split(Box::new(l2), r),
                            globals,
                            Some(e),
                            code,
                        ));
                    }
                    (FullContext::Split(Box::new(l2), r), true, Some(e))
                },
                None => {
                    let (r2, moved_right, e2) = tick(*r, globals, code, fl);
                    proof {
                        lemma_follows_chain(old(globals), &g1, globals);
                        lemma_tree_live_covers(&l2, &g1.memory, &globals.memory);
                        lemma_split_live(&l2, &r2, &globals.memory);
                        assert(ticked(l0, old(globals), l2, &g1, None, code));
                        assert(ticked(r0, &g1, r2, globals, e2, code));
                        assert(between(l2, g1, None));
                        assert(beside(l2, r2));
                        assert(ticked(
                            FullContext::Split(Box::new(l0), Box::new(r0)),
                            old(globals),
                            FullContext::Split(Box::new(l2), Box::new(r2)),
                            globals,
                            e2,
                            code,
                        ));
                    }
                    (FullContext::Split(Box::new(l2), Box::new(r2)), moved_left || moved_right, e2)
                },
            }
        },
    }
}

/// Whether `after` is `before` with the contexts that have no frame taken
/// out: it is the chain that leans right of the others, in their order;
/// where none has a frame, it is `before` itself.
pub open spec fn pruned(before: &FullContext, after: &FullContext) -> bool {
    if before.survivors().len() > 0 {
        after.leaves() == before.survivors() && *after == crate::contexts::chain_of(
            crate::contexts::as_leaves(before.survivors()),
        )
    } else {
        *after == *before
    }
}

/// Whether the tree `t1` and the shared state `g1` are what `n` ticks make
/// of the tree `t0` and the shared state `g0`, no tick ending in an error:
/// each tick is run on a tree with a context that can be advanced, and after
/// each the contexts without a frame are taken out.
pub open spec fn ran_ticks(
    t0: FullContext,
    g0: &Globals,
    t1: FullContext,
    g1: &Globals,
    n: nat,
    code: &Code,
) -> bool
    decreases n,
{
    if n == 0 {
        t1 == t0 && *g1 == *g0
    } else {
        exists|before: FullContext, mid: Globals, after: FullContext| #[trigger]
            around(before, mid, after) && ran_ticks(
                t0,
                g0,
                before,
                &mid,
                (n - 1) as nat,
                code,
            ) && before.runnable() && ticked(before, &mid, after, g1, None, code) && pruned(
                &after,
                &t1,
            )
    }
}

/// What stands around the last of some ticks: the tree and the shared state
/// before it, and the tree after it. This holds of anything; it names what
/// [`ran_ticks`] speaks of.
pub open spec fn around(before: FullContext, mid: Globals, after: FullContext) -> bool {
    true
}

/// Whether `after` is what the end of a run makes of the tree `before`:
/// where a context returned by a `return`, those that ran off the end are
/// ended and taken out; then no context is marked as returned any more.
pub open spec fn closed(before: &FullContext, after: &FullContext) -> bool {
    exists|ended: FullContext, rest: FullContext| #[trigger]
        beside(ended, rest) && (if before.any_explicit() {
            ended.leaves().len() == before.leaves().len() && (forall|i: int|
                0 <= i < before.leaves().len() ==> #[trigger] ended_if_implicit(
                    &before.leaves()[i],
                    &ended.leaves()[i],
                )) && pruned(&ended, &rest)
        } else {
            rest == *before
        }) && after.leaves().len() == rest.leaves().len() && (forall|i: int|
            0 <= i < rest.leaves().len() ==> #[trigger] unmarked(
                &rest.leaves()[i],
                &after.leaves()[i],
            ))
}

/// Whether the result `r`, the tree `t1` and the shared state `g1` are what
/// a run of at most `max_ticks` ticks makes of the tree `t0` and the shared
/// state `g0`: the run ends after the first tick that leaves no context to
/// advance, and is then closed; or with the error of the first tick that
/// has one; or, with neither, after `max_ticks` ticks.
pub open spec fn ran(
    t0: FullContext,
    g0: &Globals,
    t1: FullContext,
    g1: &Globals,
    max_ticks: usize,
    code: &Code,
    r: Result<RunState, RuntimeError>,
) -> bool {
    match r {
        Ok(RunState::Finished) => exists|n: nat, last: FullContext| #[trigger]
            ran_ticks(t0, g0, last, g1, n, code) && n <= max_ticks && !last.runnable() && closed(
                &last,
                &t1,
            ),
        Ok(RunState::OutOfTicks) => t1.runnable() && ran_ticks(
            t0,
            g0,
            t1,
            g1,
            max_ticks as nat,
            code,
        ),
        Err(e) => exists|n: nat, before: FullContext, mid: Globals| #[trigger]
            ran_ticks(t0, g0, before, &mid, n, code) && n < max_ticks && before.runnable()
                && ticked(before, &mid, t1, g1, Some(e), code),
    }
}

/// How a run ended.
#[derive(Clone, Copy, Debug, PartialEq, Eq, Structural)]
pub enum RunState {
    /// No context can be advanced: each returned or ended.
    Finished,
    /// The ticks that the run was allowed are used up.
    OutOfTicks,
}

/// Runs the contexts, tick by tick: in each tick every context that has a
/// frame and has not returned advances by one instruction, and the contexts
/// that ended are taken out of the tree. The run goes on until no context can
/// be advanced, or `max_ticks` ticks are done. At the end of a run, where a
/// context returned by a `return`, those that ran off the end are ended; then
/// the marks of having returned are taken off. An error that nothing catches
/// ends the run at once.
pub fn execute_code<F: FloatUnit>(
    globals: &mut Globals,
    code: &Code,
    contexts: &mut FullContext,
    fl: &F,
    max_ticks: usize,
) -> (r: Result<RunState, RuntimeError>)
    requires
        old(globals).wf(),
        old(contexts).live(&old(globals).memory),
    ensures
        final(globals).wf(),
        final(globals).follows(old(globals)),
        final(contexts).live(&final(globals).memory),
        r == Ok::<RunState, RuntimeError>(RunState::Finished) ==> forall|i: int|
            0 <= i < final(contexts).leaves().len() ==> (#[trigger] final(contexts).leaves()[i]).returned is None,
        !old(contexts).runnable() ==> r == Ok::<RunState, RuntimeError>(RunState::Finished)
            && *final(globals) == *old(globals),
        r == Ok::<RunState, RuntimeError>(RunState::OutOfTicks) ==> final(contexts).runnable(),
        ran(*old(contexts), old(globals), *final(contexts), final(globals), max_ticks, code, r),
{
    let mut ticks: usize = 0;
    proof {
        lemma_follows_self(globals);
    }
    loop
        invariant
            globals.wf(),
            globals.follows(old(globals)),
            contexts.live(&globals.memory),
            ticks <= max_ticks,
            ticks == 0 ==> *contexts == *old(contexts) && *globals == *old(globals),
            ticks > 0 ==> old(contexts).runnable(),
            ran_ticks(*old(contexts), old(globals), *contexts, globals, ticks as nat, code),
        ensures
            globals.wf(),
            globals.follows(old(globals)),
            contexts.live(&globals.memory),
            !contexts.runnable(),
            old(contexts).runnable() || (*contexts == *old(contexts) && *globals == *old(globals)),
            ticks <= max_ticks,
            ran_ticks(*old(contexts), old(globals), *contexts, globals, ticks as nat, code),
        decreases max_ticks - ticks,
    {
        if !contexts.has_runnable() {
            break ;
        }
        if ticks >= max_ticks {
            return Ok(RunState::OutOfTicks);
        }
        let mut taken = FullContext::Single(Context::new(0));
        core::mem::swap(contexts, &mut taken);
        let ghost g1 = *globals;
        let ghost start = taken;
        let (t, _, err) = tick(taken, globals, code, fl);
        *contexts = t;
        proof {
            lemma_follows_chain(old(globals), &g1, globals);
        }
        match err {
            Some(e) => {
                return Err(e);
            },
            None => {},
        }
        let ghost before = *contexts;
        contexts.remove_finished();
        proof {
            lemma_survivors_live(&before, &globals.memory);
            assert(around(start, g1, before));
            assert(pruned(&before, contexts));
            assert(ran_ticks(
                *old(contexts),
                old(globals),
                *contexts,
                globals,
                (ticks + 1) as nat,
                code,
            ));
        }
        ticks += 1;
    }
    let mut taken = FullContext::Single(Context::new(0));
    core::mem::swap(contexts, &mut taken);
    let explicit = taken.has_explicit();
    let ghost t0 = taken;
    let ghost mut ended = taken;
    if explicit {
        taken = taken.yeet_implicit();
        assert(taken.live(&globals.memory)) by {
            assert forall|i: int| 0 <= i < taken.leaves().len() implies (#[trigger] taken.leaves()[i]).live(
                &globals.memory,
            ) by {
                assert(ended_if_implicit(&t0.leaves()[i], &taken.leaves()[i]));
                assert(t0.leaves()[i].live(&globals.memory));
            }
        }
        let ghost before = taken;
        taken.remove_finished();
        proof {
            lemma_survivors_live(&before, &globals.memory);
            ended = before;
        }
    }
    let ghost t1 = taken;
    taken = taken.clear_returns();
    assert(taken.live(&globals.memory)) by {
        assert forall|i: int| 0 <= i < taken.leaves().len() implies (#[trigger] taken.leaves()[i]).live(
            &globals.memory,
        ) by {
            assert(unmarked(&t1.leaves()[i], &taken.leaves()[i]));
            assert(t1.leaves()[i].live(&globals.memory));
        }
    }
    assert forall|i: int| 0 <= i < taken.leaves().len() implies (#[trigger] taken.leaves()[i]).returned is None by {
        assert(unmarked(&t1.leaves()[i], &taken.leaves()[i]));
    }
    proof {
        assert(beside(ended, t1));
        assert(closed(&t0, &taken));
    }
    *contexts = taken;
    Ok(RunState::Finished)
}

} // verus!
