//! The instructions that split a context, end it, and make macros.

use vstd::prelude::*;
use crate::bytecode::{Code, InstrNum};
use crate::contexts::{lemma_live_covers, Context, ReturnType};
use crate::data::{only_stored, pop_deep_clones};
use crate::error::{RuntimeError, RuntimeErrorView};
use crate::flow::{
    at, fails, fails_malformed, kept, lemma_follows_chain, malformed, nothing_pushed, out_of_room,
    ready, replaced_top, Flow,
};
use crate::globals::Globals;
use crate::ids::{Id, IdClass, ID_MAX};
use crate::machine::push_value;
use crate::memory::{alike, Memory};
use crate::value::{StoredValueView, Value, ValueKey, ValueView};

verus! {

/// Whether the keys `to`, over the arena `now`, stand for deep copies, in
/// slots that `before` did not have, of what the keys `from` stand for over
/// `before`, one for one.
pub open spec fn keys_copied(
    from: Seq<ValueKey>,
    to: Seq<ValueKey>,
    before: &Memory,
    now: &Memory,
) -> bool {
    &&& to.len() == from.len()
    &&& forall|a: int|
        0 <= a < from.len() ==> now.fresh(before, #[trigger] to[a]) && alike(
            before,
            from[a],
            now,
            to[a],
        )
}

/// Whether each variable of `to` holds deep copies of what the variable of
/// `from` holds, as [`keys_copied`] has it.
pub open spec fn vars_copied(from: &Context, to: &Context, before: &Memory, now: &Memory) -> bool {
    &&& to.vars@.len() == from.vars@.len()
    &&& forall|v: int|
        0 <= v < from.vars@.len() ==> #[trigger] keys_copied(
            from.vars@[v]@,
            to.vars@[v]@,
            before,
            now,
        )
}

/// Whether `to` has the blocks of `from`: block by block of the same kind
/// and the same value, so with the same handler, the same walk at the same
/// place, and the same keys.
pub open spec fn blocks_copied(from: &Context, to: &Context) -> bool {
    &&& to.block_stack@.len() == from.block_stack@.len()
    &&& forall|a: int|
        0 <= a < from.block_stack@.len() ==> (#[trigger] to.block_stack@[a])@
            == from.block_stack@[a]@ && to.block_stack@[a].keys() == from.block_stack@[a].keys()
}

/// Copied keys stay so when the arena that they were copied from is seen
/// earlier and the arena that they were copied into later.
pub proof fn lemma_keys_copied_wider(
    from: Seq<ValueKey>,
    to: Seq<ValueKey>,
    first: &Memory,
    before: &Memory,
    now: &Memory,
    last: &Memory,
)
    requires
        first.wf(),
        before.wf(),
        before.extends(first),
        last.extends(now),
        forall|a: int| 0 <= a < from.len() ==> first.contains(#[trigger] from[a]),
        keys_copied(from, to, before, now),
    ensures
        keys_copied(from, to, first, last),
{
    assert forall|a: int| 0 <= a < from.len() implies last.fresh(first, #[trigger] to[a]) && alike(
        first,
        from[a],
        last,
        to[a],
    ) by {
        assert(now.fresh(before, to[a]));
        assert(first.contains(from[a]));
        crate::memory::lemma_alike_source_grows(first, before, from[a], now, to[a]);
        crate::memory::lemma_alike_copy_grows(first, from[a], now, last, to[a]);
    }
}

/// What a context that is a copy holds are copied keys, variable by
/// variable and on the stack, seen from an earlier arena to a later one.
pub proof fn lemma_copy_parts(
    from: &Context,
    to: &Context,
    first: &Memory,
    before: &Memory,
    now: &Memory,
    last: &Memory,
)
    requires
        first.wf(),
        before.wf(),
        before.extends(first),
        last.extends(now),
        from.live(first),
        to.is_split_of(from, before, now),
    ensures
        keys_copied(from.stack@, to.stack@, first, last),
        vars_copied(from, to, first, last),
        blocks_copied(from, to),
{
    let c = Context { id: from.id, ..*to };
    assert(c.is_copy_of(from, before, now));
    assert(keys_copied(from.stack@, to.stack@, before, now));
    lemma_keys_copied_wider(from.stack@, to.stack@, first, before, now, last);
    assert forall|v: int| 0 <= v < from.vars@.len() implies #[trigger] keys_copied(
        from.vars@[v]@,
        to.vars@[v]@,
        first,
        last,
    ) by {
        assert(c.vars@[v]@.len() == from.vars@[v]@.len());
        assert forall|a: int| 0 <= a < from.vars@[v]@.len() implies now.fresh(
            before,
            #[trigger] to.vars@[v]@[a],
        ) && alike(before, from.vars@[v]@[a], now, to.vars@[v]@[a]) by {
            assert(now.fresh(before, c.vars@[v]@[a]));
        }
        assert forall|a: int| 0 <= a < from.vars@[v]@.len() implies first.contains(
            #[trigger] from.vars@[v]@[a],
        ) by {}
        lemma_keys_copied_wider(from.vars@[v]@, to.vars@[v]@, first, before, now, last);
    }
}

/// Whether the instruction split the context `ctx0` into `ctx1`, which
/// stays in place, and `inside`, a copy where `ctx0` stood, with the same
/// blocks and with deep copies of what the variables hold: the path of the
/// one ends in `a` now, that of the other in `b`. What the stacks of the two
/// hold is for the instruction to say.
pub open spec fn forked(
    ctx0: &Context,
    g0: &Globals,
    ctx1: &Context,
    inside: &Context,
    g1: &Globals,
) -> bool {
    &&& ctx1.id@ == ctx0.id@.push('a')
    &&& inside.id@ == ctx0.id@.push('b')
    &&& ctx1.pos == ctx0.pos
    &&& ctx1.vars == ctx0.vars
    &&& ctx1.block_stack == ctx0.block_stack
    &&& ctx1.returned == ctx0.returned
    &&& inside.pos@ == ctx0.pos@
    &&& inside.returned == ctx0.returned
    &&& inside.vars@.len() == ctx0.vars@.len()
    &&& vars_copied(ctx0, inside, &g0.memory, &g1.memory)
    &&& blocks_copied(ctx0, inside)
    &&& inside.live(&g1.memory)
    &&& g1.memory.sealed_since(&g0.memory)
    &&& g1.memory.extends(&g0.memory)
}

/// Splits `ctx`: gives its copy, and marks the paths of the two.
pub fn fork(ctx: &mut Context, globals: &mut Globals) -> (r: Result<Context, RuntimeError>)
    requires
        ready(old(ctx), old(globals)),
    ensures
        kept(old(ctx), old(globals), final(ctx), final(globals)),
        only_stored(old(globals), final(globals)),
        final(globals).memory.sealed_since(&old(globals).memory),
        final(ctx).id@ == (if r is Ok {
            old(ctx).id@.push('a')
        } else {
            old(ctx).id@
        }),
        final(ctx).group == old(ctx).group,
        final(ctx).vars == old(ctx).vars,
        final(ctx).stack == old(ctx).stack,
        final(ctx).block_stack == old(ctx).block_stack,
        final(ctx).returned == old(ctx).returned,
        match r {
            Ok(inside) => (Context { id: old(ctx).id, ..inside }).is_copy_of(
                old(ctx),
                &old(globals).memory,
                &final(globals).memory,
            ) && inside.id@ == old(ctx).id@.push('b') && inside.live(&final(globals).memory),
            Err(e) => e@ == RuntimeErrorView::MemoryExhausted && final(globals).memory.slots().len()
                >= crate::memory::ARENA_LIMIT,
        },
{
    match ctx.clone_context(globals) {
        Some(copy) => {
            let mut inside = copy;
            proof {
                lemma_live_covers(ctx, &old(globals).memory, &globals.memory);
            }
            let ghost c0 = *ctx;
            let ghost i0 = inside;
            ctx.id.push('a');
            inside.id.push('b');
            assert(ctx.live(&globals.memory)) by {
                assert(ctx.stack == c0.stack && ctx.vars == c0.vars && ctx.block_stack
                    == c0.block_stack);
            }
            assert(inside.live(&globals.memory)) by {
                assert(inside.stack == i0.stack && inside.vars == i0.vars && inside.block_stack
                    == i0.block_stack);
            }
            Ok(inside)
        },
        None => {
            proof {
                lemma_live_covers(ctx, &old(globals).memory, &globals.memory);
            }
            Err(RuntimeError::MemoryExhausted)
        },
    }
}

/// The frames with the index of the current one replaced by one more.
pub open spec fn after(index: usize) -> usize {
    Context::next_index(index, 1)
}

fn next_of(index: usize) -> (r: usize)
    ensures
        r == after(index),
{
    if index == usize::MAX {
        usize::MAX
    } else {
        index + 1
    }
}

/// What [`run_enter_arrow`] does to the context and the shared state, and how the
/// context goes on.
pub open spec fn enter_arrow_effect(
    id: InstrNum,
    ctx0: &Context,
    ctx1: &Context,
    g0: &Globals,
    g1: &Globals,
    code: &Code,
    func: usize,
    index: usize,
    r: Result<Flow, RuntimeError>,
) -> bool {
    &&& (kept(ctx0, g0, ctx1, g1))
    &&& (only_stored(g0, g1))
    &&& (ctx1.stack == ctx0.stack)
    &&& (ctx1.group == ctx0.group)
    &&& (if id >= code.destinations@.len() {
            fails_malformed(r, func, index)
        } else {
            fails(r, RuntimeErrorView::MemoryExhausted) || (r matches Ok(
                Flow::Fork { inside, outside_at, inside_at },
            ) && outside_at == code.destinations@[id as int] && inside_at == after(index)
                && inside.group == ctx0.group && inside.stack@.len() == ctx0.stack@.len()
                && forked(ctx0, g0, ctx1, &inside, g1)
                && (Context { id: ctx0.id, ..inside }).is_copy_of(
                ctx0,
                &g0.memory,
                &g1.memory,
            ))
        })
}

/// Runs `EnterArrowStatement`: splits the context. The context itself goes
/// on behind the arrow statement, at the destination; its copy goes into the
/// statement.
pub fn run_enter_arrow(
    id: InstrNum,
    ctx: &mut Context,
    globals: &mut Globals,
    code: &Code,
    func: usize,
    index: usize,
) -> (r: Result<Flow, RuntimeError>)
    requires
        ready(old(ctx), old(globals)),
    ensures
        out_of_room(r, final(globals)),
        nothing_pushed(r, old(ctx), final(ctx)),
        enter_arrow_effect(id, old(ctx), final(ctx), old(globals), final(globals), code, func, index, r),
{
    if (id as usize) >= code.destinations.len() {
        return Err(malformed(func, index));
    }
    let inside = match fork(ctx, globals) {
        Ok(c) => c,
        Err(e) => {
            return Err(e);
        },
    };
    proof {
        lemma_copy_parts(
            old(ctx),
            &inside,
            &old(globals).memory,
            &old(globals).memory,
            &globals.memory,
            &globals.memory,
        );
    }
    Ok(
        Flow::Fork {
            inside,
            outside_at: code.destinations[id as usize],
            inside_at: next_of(index),
        },
    )
}

/// What [`run_enter_trigger_function`] does to the context and the shared state, and how the
/// context goes on.
pub open spec fn enter_trigger_function_effect(
    id: InstrNum,
    ctx0: &Context,
    ctx1: &Context,
    g0: &Globals,
    g1: &Globals,
    code: &Code,
    func: usize,
    index: usize,
    r: Result<Flow, RuntimeError>,
) -> bool {
    &&& (kept(ctx0, g0, ctx1, g1))
    &&& (g1.memory.extends(&g0.memory))
    &&& (g1.objects == g0.objects)
    &&& (g1.triggers == g0.triggers)
    &&& (g1.printed == g0.printed)
    &&& (ctx1.group == ctx0.group)
    &&& (if id >= code.destinations@.len() {
            fails_malformed(r, func, index) && g1.arbitrary_ids == g0.arbitrary_ids
        } else if g0.arbitrary_ids.group == 0xFFFF {
            fails(
                r,
                RuntimeErrorView::LevelLimitExceeded {
                    class: IdClass::Group,
                    actual: 0x1_0000,
                    max: ID_MAX,
                },
            ) && g1.arbitrary_ids == g0.arbitrary_ids
        } else {
            g1.arbitrary_ids == g0.arbitrary_ids.with(
                IdClass::Group,
                (g0.arbitrary_ids.group + 1) as u16,
            ) && (fails(r, RuntimeErrorView::MemoryExhausted) || (r matches Ok(
                Flow::Fork { inside, outside_at, inside_at },
            ) && outside_at == code.destinations@[id as int] && inside_at == after(index)
                && inside.group == Id::Arbitrary(g0.arbitrary_ids.group)
                && keys_copied(ctx0.stack@, inside.stack@, &g0.memory, &g1.memory) && forked(
                ctx0,
                g0,
                ctx1,
                &inside,
                g1,
            ) && replaced_top(ctx0, ctx1, 0) && at(
                g1,
                ctx1.stack@.last(),
            ) == (StoredValueView {
                value: ValueView::TriggerFunc {
                    start_group: Id::Arbitrary(g0.arbitrary_ids.group),
                },
                def_area: code.area_of(func, index),
            })))
        })
}

/// Runs `EnterTriggerFunction`: hands a new arbitrary group out and splits
/// the context. The context itself goes on behind the function, at the
/// destination, with the trigger function that starts at the new group on its
/// stack; its copy goes into the function, in the new group.
pub fn run_enter_trigger_function(
    id: InstrNum,
    ctx: &mut Context,
    globals: &mut Globals,
    code: &Code,
    func: usize,
    index: usize,
) -> (r: Result<Flow, RuntimeError>)
    requires
        ready(old(ctx), old(globals)),
    ensures
        out_of_room(r, final(globals)),
        nothing_pushed(r, old(ctx), final(ctx)),
        enter_trigger_function_effect(id, old(ctx), final(ctx), old(globals), final(globals), code, func, index, r),
{
    if (id as usize) >= code.destinations.len() {
        return Err(malformed(func, index));
    }
    let area = code.area_at(func, index);
    let group = match globals.next_id(IdClass::Group) {
        Ok(g) => g,
        Err(e) => {
            return Err(e);
        },
    };
    let ghost g1 = *globals;
    let mut inside = match fork(ctx, globals) {
        Ok(c) => c,
        Err(e) => {
            proof {
                lemma_follows_chain(old(globals), &g1, globals);
            }
            return Err(e);
        },
    };
    let ghost g2 = *globals;
    let ghost ctx2 = *ctx;
    let ghost in0 = inside;
    inside.set_group(group);
    assert(inside.live(&globals.memory)) by {
        assert(inside.stack == in0.stack && inside.vars == in0.vars && inside.block_stack
            == in0.block_stack);
    }
    let v = Value::TriggerFunc { start_group: group }.into_stored(area);
    assert(v@.value.parts() =~= Seq::empty());
    assert(v@.value.captured() =~= Seq::empty());
    let pushed = push_value(ctx, globals, v);
    proof {
        lemma_follows_chain(old(globals), &g1, &g2);
        lemma_follows_chain(old(globals), &g2, globals);
        lemma_live_covers(&inside, &g2.memory, &globals.memory);
        assert(old(ctx).stack@.take(old(ctx).stack@.len() as int) =~= old(ctx).stack@);
    }
    match pushed {
        Ok(_) => {
            proof {
                assert(in0.is_split_of(old(ctx), &g1.memory, &g2.memory));
                lemma_copy_parts(
                    old(ctx),
                    &in0,
                    &old(globals).memory,
                    &g1.memory,
                    &g2.memory,
                    &globals.memory,
                );
                assert(inside.vars == in0.vars && inside.stack == in0.stack && inside.block_stack
                    == in0.block_stack);
                assert forall|k: ValueKey| globals.memory.fresh(&g2.memory, k) implies #[trigger] globals.memory.value(
                    k,
                ).parts().len() == 0 by {
                    assert(k == ctx.stack@.last());
                }
                crate::memory::lemma_sealed_chain_grow(
                    &old(globals).memory,
                    &g2.memory,
                    &globals.memory,
                );
            }
            Ok(
            Flow::Fork {
                inside,
                outside_at: code.destinations[id as usize],
                    inside_at: next_of(index),
                },
            )
        },
        Err(e) => Err(e),
    }
}

/// What [`run_split`] does to the context and the shared state, and how the
/// context goes on.
pub open spec fn split_effect(
    ctx0: &Context,
    ctx1: &Context,
    g0: &Globals,
    g1: &Globals,
    func: usize,
    index: usize,
    r: Result<Flow, RuntimeError>,
) -> bool {
    &&& (kept(ctx0, g0, ctx1, g1))
    &&& (only_stored(g0, g1))
    &&& (ctx1.group == ctx0.group)
    &&& (ctx0.stack@.len() < 2 ==> fails_malformed(r, func, index))
    &&& (ctx0.stack@.len() >= 2 ==> (fails(r, RuntimeErrorView::MemoryExhausted) || (r matches Ok(
            Flow::Fork { inside, outside_at, inside_at },
        ) && outside_at == after(index) && inside_at == after(index) && inside.group == ctx0.group && forked(ctx0, g0, ctx1, &inside, g1)
            && replaced_top(ctx0, ctx1, 2) && inside.stack@.len() == ctx1.stack@.len()
            && keys_copied(
            ctx0.stack@.take(ctx0.stack@.len() - 2),
            inside.stack@.drop_last(),
            &g0.memory,
            &g1.memory,
        ) && g1.memory.fresh(
            &g0.memory,
            ctx1.stack@.last(),
        ) && g1.memory.fresh(&g0.memory, inside.stack@.last()) && alike(
            &g0.memory,
            ctx0.stack@[ctx0.stack@.len() - 2],
            &g1.memory,
            ctx1.stack@.last(),
        ) && alike(
            &g0.memory,
            ctx0.stack@.last(),
            &g1.memory,
            inside.stack@.last(),
        ))))
}

/// Runs `Split`: takes `b` and, below it, `a` off the stack and splits the
/// context. The context itself goes on with a deep copy of `a` on its stack,
/// its copy with one of `b`.
pub fn run_split(ctx: &mut Context, globals: &mut Globals, func: usize, index: usize) -> (r: Result<
    Flow,
    RuntimeError,
>)
    requires
        ready(old(ctx), old(globals)),
    ensures
        out_of_room(r, final(globals)),
        nothing_pushed(r, old(ctx), final(ctx)),
        split_effect(old(ctx), final(ctx), old(globals), final(globals), func, index, r),
{
    let copies = match pop_deep_clones(ctx, globals, 2, func, index) {
        Ok(c) => c,
        Err(e) => {
            return Err(e);
        },
    };
    let a = copies[0];
    let b = copies[1];
    let ghost g1 = *globals;
    let ghost ctx1 = *ctx;
    let mut inside = match fork(ctx, globals) {
        Ok(c) => c,
        Err(e) => {
            proof {
                lemma_follows_chain(old(globals), &g1, globals);
            }
            return Err(e);
        },
    };
    proof {
        lemma_follows_chain(old(globals), &g1, globals);
        crate::memory::lemma_sealed_chain(&old(globals).memory, &g1.memory, &globals.memory);
        assert(g1.memory.contains(a) && g1.memory.contains(b));
        assert(old(ctx).stack@.skip(old(ctx).stack@.len() - 2)[0] == old(ctx).stack@[old(ctx).stack@.len() - 2]);
        assert(old(ctx).stack@.skip(old(ctx).stack@.len() - 2)[1] == old(ctx).stack@.last());
        assert(old(globals).memory.contains(old(ctx).stack@[old(ctx).stack@.len() - 2]));
        assert(old(globals).memory.contains(old(ctx).stack@[old(ctx).stack@.len() - 1]));
        crate::memory::lemma_alike_copy_grows(
            &old(globals).memory,
            old(ctx).stack@[old(ctx).stack@.len() - 2],
            &g1.memory,
            &globals.memory,
            a,
        );
        crate::memory::lemma_alike_copy_grows(
            &old(globals).memory,
            old(ctx).stack@.last(),
            &g1.memory,
            &globals.memory,
            b,
        );
    }
    let ghost ctx2v = *ctx;
    let ghost in2 = inside;
    proof {
        assert(in2.is_split_of(&ctx1, &g1.memory, &globals.memory));
        assert(ctx1.live(&old(globals).memory)) by {
            assert forall|i: int| 0 <= i < ctx1.stack@.len() implies old(globals).memory.contains(
                #[trigger] ctx1.stack@[i],
            ) by {
                assert(ctx1.stack@[i] == old(ctx).stack@[i]);
            }
        }
        lemma_copy_parts(
            &ctx1,
            &in2,
            &old(globals).memory,
            &g1.memory,
            &globals.memory,
            &globals.memory,
        );
    }
    ctx.push_key(a);
    inside.push_key(b);
    assert(ctx.stack@.drop_last() =~= ctx2v.stack@);
    assert(inside.stack@.drop_last() =~= in2.stack@);
    let to = next_of(index);
    Ok(Flow::Fork { inside, outside_at: to, inside_at: to })
}

/// What [`run_return_value`] does to the context and the shared state, and how the
/// context goes on.
pub open spec fn return_value_effect(
    ctx0: &Context,
    ctx1: &Context,
    r: Flow,
) -> bool {
    &&& (r is Halt)
    &&& (*ctx1 == (Context { returned: Some(ReturnType::Explicit), ..*ctx0 }))
    &&& (forall|m: Memory| ctx0.live(&m) ==> #[trigger] ctx1.live(&m))
}

/// Runs `ReturnValue`: marks the context as returned by a `return`. It stays
/// where it is.
pub fn run_return_value(ctx: &mut Context) -> (r: Flow)
    ensures
        return_value_effect(old(ctx), final(ctx), r),
{
    ctx.returned = Some(ReturnType::Explicit);
    Flow::Halt
}

/// What [`run_yeet`] does to the context and the shared state, and how the
/// context goes on.
pub open spec fn yeet_effect(
    ctx0: &Context,
    ctx1: &Context,
    r: Flow,
) -> bool {
    &&& (r is Halt)
    &&& (ctx1.finished())
    &&& (ctx1.group == ctx0.group)
    &&& (ctx1.id == ctx0.id)
    &&& (ctx1.vars == ctx0.vars)
    &&& (ctx1.stack == ctx0.stack)
    &&& (ctx1.block_stack == ctx0.block_stack)
    &&& (ctx1.returned == ctx0.returned)
    &&& (forall|m: Memory| ctx0.live(&m) ==> #[trigger] ctx1.live(&m))
}

/// Runs `YeetContext`: ends the context.
pub fn run_yeet(ctx: &mut Context) -> (r: Flow)
    ensures
        yeet_effect(old(ctx), final(ctx), r),
{
    ctx.yeet();
    Flow::Halt
}

} // verus!
