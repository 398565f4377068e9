//! The instructions of `for` and `try` blocks, of indexing, of patterns and
//! of printing.

use vstd::prelude::*;
use crate::bytecode::{Code, InstrNum};
use crate::contexts::{lemma_live_covers, Block, Context, ValueIter};
use crate::data::{only_stored, pop_keys};
use crate::display::{plain, value_text};
use crate::error::{RuntimeError, RuntimeErrorView};
use crate::float::FloatUnit;
use crate::flow::{
    at, dropped_top, fails, fails_malformed, from_top, goes_on, goes_to, kept, lemma_follows_chain,
    malformed, nothing_pushed, out_of_room, ready, replaced_top, Flow,
};
use crate::globals::Globals;
use crate::iteration::{element_of, starts_on, to_iter};
use crate::machine::push_value;
use crate::memory::{new_copy_of, Memory};
use crate::value::{Pattern, PatternView, StoredValueView, Value, ValueKey, ValueType, ValueView};
use crate::value_ops::to_pat;

verus! {

/// What [`run_to_iter`] does to the context and the shared state, and how the
/// context goes on.
pub open spec fn to_iter_effect(
    ctx0: &Context,
    ctx1: &Context,
    g0: &Globals,
    code: &Code,
    func: usize,
    index: usize,
    r: Result<Flow, RuntimeError>,
) -> bool {
    &&& (kept(ctx0, g0, ctx1, g0))
    &&& (ctx1.same_but_stack_and_blocks(ctx0))
    &&& (ctx0.stack@.len() == 0 ==> fails_malformed(r, func, index) && ctx1.stack@ == ctx0.stack@
        && ctx1.block_stack@ == ctx0.block_stack@)
    &&& (ctx0.stack@.len() > 0 ==> ctx1.stack@ == ctx0.stack@.drop_last() && ({
            let x = at(g0, ctx0.stack@.last());
            if x.value is Array || x.value is String || x.value is Dict {
                goes_on(r) && ctx1.block_stack@.len() == ctx0.block_stack@.len() + 1
                    && ctx1.block_stack@.drop_last() == ctx0.block_stack@ && (ctx1.block_stack@.last() matches Block::For(it) && starts_on(
                    &it,
                    x,
                    code.area_of(func, index),
                ))
            } else {
                fails(r, RuntimeErrorView::CannotIterate { a: x }) && ctx1.block_stack@
                    == ctx0.block_stack@
            }
        }))
}

/// Runs `ToIter`: takes a value off the stack and opens a `for` block with
/// the walk through it.
pub fn run_to_iter(ctx: &mut Context, globals: &Globals, code: &Code, func: usize, index: usize) -> (r:
    Result<Flow, RuntimeError>)
    requires
        ready(old(ctx), globals),
    ensures
        out_of_room(r, globals),
        nothing_pushed(r, old(ctx), final(ctx)),
        to_iter_effect(old(ctx), final(ctx), globals, code, func, index, r),
{
    let area = code.area_at(func, index);
    let k = match ctx.pop_key() {
        Some(k) => k,
        None => {
            return Err(malformed(func, index));
        },
    };
    assert(ctx.live(&globals.memory));
    assert(globals.memory.contains(k));
    assert(globals.memory.admits(globals.memory.value(k)));
    match to_iter(globals.memory.get(k), area) {
        Ok(it) => {
            let ghost before = ctx.block_stack@;
            let b = Block::For(it);
            ctx.push_block(b);
            assert(ctx.block_stack@.drop_last() =~= before);
            Ok(Flow::Next)
        },
        Err(e) => Err(e),
    }
}

/// What [`run_iter_next`] does to the context and the shared state, and how the
/// context goes on.
pub open spec fn iter_next_effect(
    to: InstrNum,
    ctx0: &Context,
    ctx1: &Context,
    g0: &Globals,
    g1: &Globals,
    code: &Code,
    func: usize,
    index: usize,
    r: Result<Flow, RuntimeError>,
) -> bool {
    &&& (kept(ctx0, g0, ctx1, g1))
    &&& (only_stored(g0, g1))
    &&& (ctx1.same_but_stack_and_blocks(ctx0))
    &&& (ctx1.block_stack@.len() == ctx0.block_stack@.len())
    &&& (!(ctx0.block_stack@.len() > 0 && ctx0.block_stack@.last() is For)
            ==> fails_malformed(r, func, index) && ctx1.stack@ == ctx0.stack@ && ctx1.block_stack@
            == ctx0.block_stack@ && *g1 == *g0)
    &&& (ctx0.block_stack@.len() > 0 && ctx0.block_stack@.last() is For ==> ({
            let it = ctx0.block_stack@.last()->For_0;
            &&& ctx1.block_stack@.drop_last() == ctx0.block_stack@.drop_last()
            &&& ctx1.block_stack@.last() matches Block::For(now) && now.one_after(&it)
            &&& if it.at() >= it.length() {
                ctx1.stack@ == ctx0.stack@ && *g1 == *g0 && (if to < code.destinations@.len() {
                    goes_to(r, code.destinations@[to as int])
                } else {
                    fails_malformed(r, func, index)
                })
            } else {
                (fails(r, RuntimeErrorView::MemoryExhausted) && ctx1.stack@ == ctx0.stack@) || (
                goes_on(r) && replaced_top(ctx0, ctx1, 0) && !g0.memory.contains(
                    ctx1.stack@.last(),
                ) && element_of(&it, &g0.memory, &g1.memory, at(g1, ctx1.stack@.last())))
            }
        }))
}

/// Runs `IterNext`: puts the next element of the innermost block, which
/// must be a `for`, on the stack, stored in a new slot; at the end of the
/// walk goes on at the destination instead.
pub fn run_iter_next(
    to: InstrNum,
    ctx: &mut Context,
    globals: &mut Globals,
    code: &Code,
    func: usize,
    index: usize,
) -> (r: Result<Flow, RuntimeError>)
    requires
        ready(old(ctx), old(globals)),
    ensures
        out_of_room(r, final(globals)),
        nothing_pushed(r, old(ctx), final(ctx)),
        iter_next_effect(to, old(ctx), final(ctx), old(globals), final(globals), code, func, index, r),
{
    let ghost blocks = ctx.block_stack@;
    let mut it = match ctx.pop_block() {
        Some(Block::For(it)) => it,
        Some(other) => {
            ctx.push_block(other);
            assert(ctx.block_stack@ =~= blocks);
            return Err(malformed(func, index));
        },
        None => {
            return Err(malformed(func, index));
        },
    };
    let ghost it0 = it;
    assert(it.live(&globals.memory)) by {
        assert forall|j: int| 0 <= j < it.keys().len() implies globals.memory.contains(
            #[trigger] it.keys()[j],
        ) by {
            assert(it.keys()[j] == old(ctx).block_stack@[blocks.len() - 1].keys()[j]);
        }
    }
    let step = it.next(globals);
    let ghost it1 = it;
    let ghost popped = ctx.block_stack@;
    ctx.push_block(Block::For(it));
    assert(ctx.live(&globals.memory));
    assert(ctx.block_stack@.drop_last() =~= popped);
    assert(popped =~= blocks.drop_last());
    match step {
        Ok(Some(v)) => {
            let ghost vv = v@;
            let ghost mid = *globals;
            match push_value(ctx, globals, v) {
                Ok(_) => {
                    proof {
                        lemma_follows_chain(old(globals), &mid, globals);
                        assert(old(ctx).stack@.take(old(ctx).stack@.len() as int) =~= old(ctx).stack@);
                        lemma_element_kept(&it0, &old(globals).memory, &mid.memory, &globals.memory, vv);
                    }
                    Ok(Flow::Next)
                },
                Err(e) => {
                    proof {
                        lemma_follows_chain(old(globals), &mid, globals);
                    }
                    Err(e)
                },
            }
        },
        Ok(None) => {
            if (to as usize) < code.destinations.len() {
                Ok(Flow::Goto(code.destinations[to as usize]))
            } else {
                Err(malformed(func, index))
            }
        },
        Err(e) => Err(e),
    }
}

/// An element of a walk stays one when the arena grows.
pub proof fn lemma_element_kept(
    it: &ValueIter,
    before: &Memory,
    mid: &Memory,
    now: &Memory,
    v: StoredValueView,
)
    requires
        before.wf(),
        it.live(before),
        it.at() < it.length(),
        mid.extends(before),
        now.extends(mid),
        element_of(it, before, mid, v),
    ensures
        element_of(it, before, now, v),
{
    match it {
        ValueIter::Array(keys, at) => {
            let k = keys@[*at as int];
            assert(it.keys()[*at as int] == k);
            assert(before.contains(k));
            assert(before.admits(before.value(k)));
            assert forall|i: int| 0 <= i < before.value(k).parts().len() implies crate::memory::alike(
                before,
                before.value(k).parts()[i],
                now,
                #[trigger] v.value.parts()[i],
            ) by {
                crate::memory::lemma_alike_copy_grows(
                    before,
                    before.value(k).parts()[i],
                    mid,
                    now,
                    v.value.parts()[i],
                );
            }
        },
        ValueIter::Dict { dict_area, for_area, idx, elems } => {
            let k = elems@[*idx as int].1;
            assert(it.keys()[*idx as int] == k);
            assert(before.contains(k));
            let pair = v.value->Array_0;
            crate::memory::lemma_alike_copy_grows(before, k, mid, now, pair[1]);
            assert(mid.contains(pair[0]));
        },
        ValueIter::String(..) => {},
    }
}

/// What [`run_pop_block`] does to the context and the shared state, and how the
/// context goes on.
pub open spec fn pop_block_effect(
    n: InstrNum,
    ctx0: &Context,
    ctx1: &Context,
    g0: &Globals,
    r: Flow,
) -> bool {
    &&& (kept(ctx0, g0, ctx1, g0))
    &&& (ctx1.same_but_blocks(ctx0))
    &&& (r is Next)
    &&& (ctx1.block_stack@ == ctx0.block_stack@.take(
            if ctx0.block_stack@.len() >= n {
                ctx0.block_stack@.len() - n
            } else {
                0
            },
        ))
}

/// Runs `PopBlock`: closes the innermost `n` blocks, or all where there are
/// fewer.
pub fn run_pop_block(n: InstrNum, ctx: &mut Context, globals: &Globals) -> (r: Flow)
    requires
        ready(old(ctx), globals),
    ensures
        pop_block_effect(n, old(ctx), final(ctx), globals, r),
{
    let mut i: u16 = 0;
    assert(ctx.block_stack@.take(ctx.block_stack@.len() as int) =~= ctx.block_stack@);
    while i < n
        invariant
            i <= n,
            ctx.same_but_blocks(old(ctx)),
            ctx.live(&globals.memory),
            ctx.block_stack@ == old(ctx).block_stack@.take(
                if old(ctx).block_stack@.len() >= i {
                    old(ctx).block_stack@.len() - i
                } else {
                    0
                },
            ),
        decreases n - i,
    {
        let ghost before = ctx.block_stack@;
        ctx.pop_block();
        i += 1;
        assert(ctx.block_stack@ =~= old(ctx).block_stack@.take(
            if old(ctx).block_stack@.len() >= i {
                old(ctx).block_stack@.len() - i
            } else {
                0
            },
        ));
    }
    Flow::Next
}

/// What [`run_push_try`] does to the context and the shared state, and how the
/// context goes on.
pub open spec fn push_try_effect(
    to: InstrNum,
    ctx0: &Context,
    ctx1: &Context,
    g0: &Globals,
    code: &Code,
    func: usize,
    index: usize,
    r: Result<Flow, RuntimeError>,
) -> bool {
    &&& (kept(ctx0, g0, ctx1, g0))
    &&& (ctx1.same_but_blocks(ctx0))
    &&& (if to < code.destinations@.len() {
            goes_on(r) && ctx1.block_stack@ == ctx0.block_stack@.push(
                Block::Try(code.destinations@[to as int]),
            )
        } else {
            fails_malformed(r, func, index) && ctx1.block_stack@ == ctx0.block_stack@
        })
}

/// Runs `PushTry`: opens a `try` block whose handler is the destination.
pub fn run_push_try(to: InstrNum, ctx: &mut Context, globals: &Globals, code: &Code, func: usize, index: usize) -> (r:
    Result<Flow, RuntimeError>)
    requires
        ready(old(ctx), globals),
    ensures
        out_of_room(r, globals),
        nothing_pushed(r, old(ctx), final(ctx)),
        push_try_effect(to, old(ctx), final(ctx), globals, code, func, index, r),
{
    if (to as usize) >= code.destinations.len() {
        return Err(malformed(func, index));
    }
    let b = Block::Try(code.destinations[to as usize]);
    assert(b.keys() =~= Seq::empty());
    ctx.push_block(b);
    Ok(Flow::Next)
}

/// What [`run_index`] does to the context and the shared state, and how the
/// context goes on.
pub open spec fn index_effect(
    ctx0: &Context,
    ctx1: &Context,
    g0: &Globals,
    g1: &Globals,
    func: usize,
    index: usize,
    r: Result<Flow, RuntimeError>,
) -> bool {
    &&& (kept(ctx0, g0, ctx1, g1))
    &&& (ctx1.same_but_stack(ctx0))
    &&& (only_stored(g0, g1))
    &&& (ctx0.stack@.len() < 2 ==> fails_malformed(r, func, index))
    &&& (ctx0.stack@.len() >= 2 ==> ({
            let n = ctx0.stack@.len();
            let base = at(g0, ctx0.stack@[n - 2]);
            let idx = at(g0, ctx0.stack@[n - 1]);
            match (base.value, idx.value) {
                (ValueView::Array(arr), ValueView::Int(i)) => if 0 <= i < arr.len() {
                    fails(r, RuntimeErrorView::MemoryExhausted) || (goes_on(r) && replaced_top(
                        ctx0,
                        ctx1,
                        2,
                    ) && ({
                        let got = at(g1, ctx1.stack@.last());
                        got.def_area == at(g0, arr[i as int]).def_area && new_copy_of(
                            &g0.memory,
                            g0.memory.value(arr[i as int]),
                            &g1.memory,
                            got.value,
                        )
                    }))
                } else {
                    fails(
                        r,
                        RuntimeErrorView::IndexOutOfRange {
                            index: i,
                            length: arr.len() as usize,
                            area: idx.def_area,
                        },
                    )
                },
                (ValueView::Array(_), _) => fails(
                    r,
                    RuntimeErrorView::TypeMismatch {
                        v: idx,
                        expected: "integer"@,
                        area: idx.def_area,
                    },
                ),
                _ => fails(
                    r,
                    RuntimeErrorView::TypeMismatch {
                        v: base,
                        expected: "array"@,
                        area: base.def_area,
                    },
                ),
            }
        }))
}

/// Runs `Index`: takes an index and, below it, an array off the stack and
/// puts a deep copy of the element at the index on.
pub fn run_index(ctx: &mut Context, globals: &mut Globals, func: usize, index: usize) -> (r: Result<
    Flow,
    RuntimeError,
>)
    requires
        ready(old(ctx), old(globals)),
    ensures
        out_of_room(r, final(globals)),
        nothing_pushed(r, old(ctx), final(ctx)),
        index_effect(old(ctx), final(ctx), old(globals), final(globals), func, index, r),
{
    let keys = match pop_keys(ctx, 2) {
        Some(k) => k,
        None => {
            return Err(malformed(func, index));
        },
    };
    assert(ctx.live(&globals.memory));
    let kbase = keys[0];
    let kidx = keys[1];
    assert(globals.memory.contains(kbase) && globals.memory.contains(kidx));
    assert(globals.memory.admits(globals.memory.value(kbase)));
    let found: Result<ValueKey, RuntimeError> = {
        let base = globals.memory.get(kbase);
        let idx = globals.memory.get(kidx);
        match &base.value {
            Value::Array(arr) => match &idx.value {
                Value::Int(i) => {
                    if *i >= 0 && (*i as u64) < (arr.len() as u64) {
                        assert(base@.value.parts()[*i as int] == arr@[*i as int]);
                        Ok(arr[*i as usize])
                    } else {
                        Err(
                            RuntimeError::IndexOutOfRange {
                                index: *i,
                                length: arr.len(),
                                area: idx.def_area,
                            },
                        )
                    }
                },
                _ => Err(
                    RuntimeError::TypeMismatch {
                        v: idx.copy(),
                        expected: String::from_str("integer"),
                        area: idx.def_area,
                    },
                ),
            },
            _ => Err(
                RuntimeError::TypeMismatch {
                    v: base.copy(),
                    expected: String::from_str("array"),
                    area: base.def_area,
                },
            ),
        }
    };
    let k = match found {
        Ok(k) => k,
        Err(e) => {
            return Err(e);
        },
    };
    let v = match globals.memory.deep_clone(k) {
        Some(v) => v,
        None => {
            proof {
                lemma_live_covers(ctx, &old(globals).memory, &globals.memory);
            }
            return Err(RuntimeError::MemoryExhausted);
        },
    };
    proof {
        lemma_live_covers(ctx, &old(globals).memory, &globals.memory);
    }
    let ghost mid = *globals;
    let ghost vv = v@;
    match push_value(ctx, globals, v) {
        Ok(_) => {
            proof {
                lemma_follows_chain(old(globals), &mid, globals);
                assert(old(globals).memory.admits(old(globals).memory.value(k)));
                assert forall|i: int|
                    0 <= i < old(globals).memory.value(k).parts().len() implies crate::memory::alike(
                    &old(globals).memory,
                    old(globals).memory.value(k).parts()[i],
                    &globals.memory,
                    #[trigger] vv.value.parts()[i],
                ) by {
                    crate::memory::lemma_alike_copy_grows(
                        &old(globals).memory,
                        old(globals).memory.value(k).parts()[i],
                        &mid.memory,
                        &globals.memory,
                        vv.value.parts()[i],
                    );
                }
            }
            Ok(Flow::Next)
        },
        Err(e) => {
            proof {
                lemma_follows_chain(old(globals), &mid, globals);
            }
            Err(e)
        },
    }
}

/// Whether the value that stands `j` below the top of the stack is the
/// first, from the top, that is no pattern.
pub open spec fn first_other(g: &Globals, stack: Seq<ValueKey>, j: int) -> bool {
    &&& 0 <= j < stack.len()
    &&& as_pattern(at(g, from_top(stack, j)).value) is None
    &&& forall|x: int| 0 <= x < j ==> as_pattern(at(g, #[trigger] from_top(stack, x)).value) is Some
}

/// What [`run_make_macro_pattern`] does to the context and the shared state, and how the
/// context goes on.
pub open spec fn make_macro_pattern_effect(
    n: InstrNum,
    ctx0: &Context,
    ctx1: &Context,
    g0: &Globals,
    g1: &Globals,
    code: &Code,
    func: usize,
    index: usize,
    r: Result<Flow, RuntimeError>,
) -> bool {
    &&& (kept(ctx0, g0, ctx1, g1))
    &&& (ctx1.same_but_stack(ctx0))
    &&& (only_stored(g0, g1))
    &&& (ctx0.stack@.len() < n + 1 ==> fails_malformed(r, func, index))
    &&& (r is Ok ==> goes_on(r))
    &&& (ctx0.stack@.len() >= n + 1 ==> (r matches Err(e) ==> dropped_top(ctx0, ctx1, n + 1) && (e@
        == RuntimeErrorView::MemoryExhausted || exists|j: int|
        0 <= j <= n && #[trigger] first_other(g0, ctx0.stack@, j) && e@
            == (RuntimeErrorView::CannotConvert {
            a: at(g0, from_top(ctx0.stack@, j)),
            to: ValueType::Pattern,
        }))))
    &&& (goes_on(r) ==> replaced_top(ctx0, ctx1, n + 1) && ({
            let made = at(g1, ctx1.stack@.last());
            made.def_area == code.area_of(func, index) && (made.value matches ValueView::Pattern(
                PatternView::Macro { args, ret },
            ) && args.len() == n && as_pattern(at(g0, ctx0.stack@.last()).value)
                == Some(*ret) && forall|i: int|
                0 <= i < n ==> as_pattern(
                    at(g0, ctx0.stack@[ctx0.stack@.len() - 1 - n + i]).value,
                ) == Some(#[trigger] args[i]))
        }))
}

/// Runs `MakeMacroPattern`: takes a return pattern and, below it, `n`
/// parameter patterns off the stack and puts the macro pattern made of them
/// on. A tag stands for the pattern of that tag.
#[verifier::loop_isolation(false)]
pub fn run_make_macro_pattern(
    n: InstrNum,
    ctx: &mut Context,
    globals: &mut Globals,
    code: &Code,
    func: usize,
    index: usize,
) -> (r: Result<Flow, RuntimeError>)
    requires
        ready(old(ctx), old(globals)),
    ensures
        out_of_room(r, final(globals)),
        nothing_pushed(r, old(ctx), final(ctx)),
        make_macro_pattern_effect(n, old(ctx), final(ctx), old(globals), final(globals), code, func, index, r),
{
    let area = code.area_at(func, index);
    let keys = match pop_keys(ctx, n as usize + 1) {
        Some(k) => k,
        None => {
            return Err(malformed(func, index));
        },
    };
    assert(ctx.live(&globals.memory));
    let ghost base = old(ctx).stack@.len() - 1 - n;
    assert(globals.memory.contains(keys@[n as int]));
    let ghost s0 = old(ctx).stack@;
    assert(keys@[n as int] == from_top(s0, 0));
    let ret = match to_pat(globals.memory.get(keys[n as usize])) {
        Ok(p) => p,
        Err(e) => {
            assert(first_other(globals, s0, 0));
            return Err(e);
        },
    };
    let mut args: Vec<Pattern> = Vec::new();
    let mut i: usize = n as usize;
    // The patterns are read as they come off the stack, the topmost first.
    while i > 0
        invariant
            i <= n,
            keys@.len() == n + 1,
            globals.wf(),
            forall|j: int| 0 <= j < keys@.len() ==> globals.memory.contains(#[trigger] keys@[j]),
            args@.len() == n - i,
            forall|j: int|
                0 <= j < args@.len() ==> as_pattern(at(globals, keys@[n - 1 - j]).value) == Some(
                    (#[trigger] args@[j])@,
                ),
            forall|x: int|
                0 <= x <= n - i ==> as_pattern(at(globals, #[trigger] from_top(s0, x)).value) is Some,
        decreases i,
    {
        i -= 1;
        assert(globals.memory.contains(keys@[i as int]));
        assert(keys@[i as int] == from_top(s0, n - i));
        match to_pat(globals.memory.get(keys[i])) {
            Ok(p) => {
                args.push(p);
            },
            Err(e) => {
                assert(first_other(globals, s0, n - i));
                return Err(e);
            },
        }
    }
    let mut ordered: Vec<Pattern> = Vec::new();
    while args.len() > 0
        invariant
            args@.len() + ordered@.len() == n,
            forall|j: int|
                0 <= j < args@.len() ==> as_pattern(at(globals, keys@[n - 1 - j]).value) == Some(
                    (#[trigger] args@[j])@,
                ),
            forall|j: int|
                0 <= j < ordered@.len() ==> as_pattern(at(globals, keys@[j]).value) == Some(
                    (#[trigger] ordered@[j])@,
                ),
        decreases args.len(),
    {
        let ghost was = args@;
        let p = args.pop().unwrap();
        assert(p == was[was.len() - 1]);
        ordered.push(p);
    }
    let v = Value::Pattern(Pattern::Macro { args: ordered, ret: Box::new(ret) }).into_stored(area);
    assert(v@.value.parts() =~= Seq::empty());
    assert(v@.value.captured() =~= Seq::empty());
    let ghost g1 = *globals;
    match push_value(ctx, globals, v) {
        Ok(_) => {
            proof {
                assert forall|i: int| 0 <= i < n implies keys@[i] == old(ctx).stack@[base + i] by {}
            }
            Ok(Flow::Next)
        },
        Err(e) => Err(e),
    }
}

/// The pattern that a value is, if it is one: a tag stands for the pattern
/// of that tag.
pub open spec fn as_pattern(v: ValueView) -> Option<PatternView> {
    match v {
        ValueView::TypeIndicator(t) => Some(PatternView::Type(t)),
        ValueView::Pattern(p) => Some(p),
        _ => None,
    }
}

/// What [`run_print`] does to the context and the shared state, and how the
/// context goes on.
pub open spec fn print_effect(
    ctx0: &Context,
    ctx1: &Context,
    g0: &Globals,
    g1: &Globals,
    func: usize,
    index: usize,
    r: Result<Flow, RuntimeError>,
) -> bool {
    &&& (kept(ctx0, g0, ctx1, g1))
    &&& (ctx1.same_but_stack(ctx0))
    &&& (g1.memory == g0.memory)
    &&& (g1.objects == g0.objects)
    &&& (g1.triggers == g0.triggers)
    &&& (g1.arbitrary_ids == g0.arbitrary_ids)
    &&& (if ctx0.stack@.len() == 0 {
            fails_malformed(r, func, index) && g1.printed == g0.printed
        } else {
            goes_on(r) && ctx1.stack@ == ctx0.stack@.drop_last() && g1.printed@.len() == g0.printed@.len() + 1 && g1.printed@.drop_last()
                == g0.printed@ && (plain(
                &g0.memory,
                at(g0, ctx0.stack@.last()).value,
            ) ==> g1.printed@.last()@ == value_text(
                &g0.memory,
                at(g0, ctx0.stack@.last()).value,
            ))
        })
}

/// Runs `Print`: takes a value off the stack and adds its text to what was
/// printed.
pub fn run_print<F: FloatUnit>(ctx: &mut Context, globals: &mut Globals, fl: &F, func: usize, index: usize) -> (r:
    Result<Flow, RuntimeError>)
    requires
        ready(old(ctx), old(globals)),
    ensures
        out_of_room(r, final(globals)),
        nothing_pushed(r, old(ctx), final(ctx)),
        print_effect(old(ctx), final(ctx), old(globals), final(globals), func, index, r),
{
    let k = match ctx.pop_key() {
        Some(k) => k,
        None => {
            return Err(malformed(func, index));
        },
    };
    assert(ctx.live(&globals.memory));
    assert(globals.memory.contains(k));
    assert(globals.memory.admits(globals.memory.value(k)));
    let text = globals.memory.get(k).value.to_str(&globals.memory, fl);
    let ghost before = globals.printed@;
    globals.printed.push(text);
    assert(globals.printed@.drop_last() =~= before);
    Ok(Flow::Next)
}

/// What [`run_load_type`] does to the context and the shared state, and how the
/// context goes on.
pub open spec fn load_type_effect(
    id: InstrNum,
    code: &Code,
    func: usize,
    index: usize,
    r: Result<Flow, RuntimeError>,
) -> bool {
    &&& (if id < code.names@.len() {
            fails(
                r,
                RuntimeErrorView::UndefinedType {
                    name: code.names@[id as int]@,
                    area: code.area_of(func, index),
                },
            )
        } else {
            fails_malformed(r, func, index)
        })
}

/// Runs `LoadType`: there is no type to load, so the name is that of no
/// type.
pub fn run_load_type(id: InstrNum, code: &Code, func: usize, index: usize) -> (r: Result<
    Flow,
    RuntimeError,
>)
    ensures
        load_type_effect(id, code, func, index, r),
{
    if (id as usize) < code.names.len() {
        Err(
            RuntimeError::UndefinedType {
                name: code.names[id as usize].clone(),
                area: code.area_at(func, index),
            },
        )
    } else {
        Err(malformed(func, index))
    }
}

} // verus!
