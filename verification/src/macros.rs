//! The instructions that make a macro and call one.

use vstd::prelude::*;
use crate::blocks::as_pattern;
use crate::bytecode::{BytecodeFunc, Code, InstrNum};
use crate::calls::CallId;
use crate::contexts::{blank, lemma_live_covers, occurrences, scope_entered, Context};
use crate::data::{names_view, only_stored, pop_deep_clones};
use crate::error::{RuntimeError, RuntimeErrorView};
use crate::flow::{
    at, fails, fails_malformed, kept, lemma_follows_chain, lemma_follows_self, malformed,
    nothing_pushed, out_of_room, ready, replaced_top, Flow,
};
use crate::globals::Globals;
use crate::machine::push_value;
use crate::memory::{alike, Memory};
use crate::sources::CodeArea;
use crate::value::{
    defaults_of, Macro, MacroArg, MacroArgView, MacroView, Pattern, StoredValue, StoredValueView,
    Value, ValueKey, ValueType, ValueView,
};
use crate::value_ops::{fits, matches_pat, to_pat};

verus! {

/// A default among the defaults of a list of parameters is the default of
/// one of them.
pub proof fn lemma_part_is_default(args: Seq<MacroArgView>, i: int) -> (j: int)
    requires
        0 <= i < defaults_of(args).len(),
    ensures
        0 <= j < args.len(),
        args[j].default == Some(defaults_of(args)[i]),
    decreases args.len(),
{
    let rest = args.drop_last();
    match args.last().default {
        Some(k) => {
            if i == defaults_of(rest).len() {
                args.len() - 1
            } else {
                lemma_part_is_default(rest, i)
            }
        },
        None => lemma_part_is_default(rest, i),
    }
}

/// Whether every default of the parameters is the key of a slot of `m`.
pub open spec fn defaults_live(args: Seq<MacroArg>, m: &Memory) -> bool {
    forall|q: int|
        0 <= q < args.len() ==> ((#[trigger] args[q]).default matches Some(k) ==> m.contains(k))
}

/// The parameters in the opposite order.
fn reversed(args: Vec<MacroArg>) -> (r: Vec<MacroArg>)
    ensures
        r@ == args@.reverse(),
{
    let mut args = args;
    let ghost all = args@;
    let mut r: Vec<MacroArg> = Vec::new();
    while args.len() > 0
        invariant
            args@.len() + r@.len() == all.len(),
            args@ == all.take(args@.len() as int),
            forall|j: int| 0 <= j < r@.len() ==> r@[j] == all[all.len() - 1 - j],
        decreases args.len(),
    {
        let ghost was = args@;
        let a = args.pop().unwrap();
        assert(args@ =~= all.take(args@.len() as int));
        assert(a == all[was.len() - 1]);
        r.push(a);
    }
    assert(r@ =~= all.reverse());
    r
}

/// Whether `k` is the key of the innermost value of the variable `id`.
pub open spec fn is_var_key(ctx: &Context, id: InstrNum, k: ValueKey) -> bool {
    id < ctx.vars@.len() && ctx.vars@[id as int]@.len() > 0 && k == ctx.vars@[id as int]@.last()
}

/// Whether the variable `id` has a value.
pub open spec fn is_var(ctx: &Context, id: InstrNum) -> bool {
    id < ctx.vars@.len() && ctx.vars@[id as int]@.len() > 0
}

/// The keys of the innermost values of the variables `ids`, or `None` where
/// one of them has no value.
pub fn captured_keys(ctx: &Context, ids: &Vec<InstrNum>) -> (r: Option<Vec<ValueKey>>)
    ensures
        match r {
            Some(keys) => keys@.len() == ids@.len() && forall|j: int|
                0 <= j < ids@.len() ==> #[trigger] is_var_key(ctx, ids@[j], keys@[j]),
            None => exists|j: int| 0 <= j < ids@.len() && !#[trigger] is_var(ctx, ids@[j]),
        },
{
    let mut keys: Vec<ValueKey> = Vec::new();
    let mut j: usize = 0;
    while j < ids.len()
        invariant
            j <= ids.len(),
            keys@.len() == j,
            forall|q: int| 0 <= q < j ==> #[trigger] is_var_key(ctx, ids@[q], keys@[q]),
        decreases ids.len() - j,
    {
        if !ctx.has_var(ids[j]) {
            assert(!is_var(ctx, ids@[j as int]));
            return None;
        }
        let ghost before = keys@;
        keys.push(ctx.get_var(ids[j]));
        assert forall|q: int| 0 <= q < j + 1 implies #[trigger] is_var_key(
            ctx,
            ids@[q],
            keys@[q],
        ) by {
            if q < j {
                assert(keys@[q] == before[q]);
                assert(is_var_key(ctx, ids@[q], before[q]));
            }
        }
        j += 1;
    }
    Some(keys)
}

/// How many patterns and defaults the first `j` parameters of a build info
/// have between them.
pub open spec fn flags_before(args: Seq<(String, bool, bool)>, j: int) -> int
    decreases j,
{
    if j <= 0 {
        0
    } else {
        flags_before(args, j - 1) + (if args[j - 1].1 {
            1int
        } else {
            0int
        }) + (if args[j - 1].2 {
            1int
        } else {
            0int
        })
    }
}

/// Where, on a stack of `len` keys, the default of parameter `j` of a build
/// info stands: below the return pattern and what the parameters before it
/// have.
pub open spec fn default_at(len: int, args: Seq<(String, bool, bool)>, j: int) -> int {
    len - 2 - flags_before(args, j)
}

/// Where, on a stack of `len` keys, the pattern of parameter `j` of a build
/// info stands: below its default, where it has one.
pub open spec fn pattern_at(len: int, args: Seq<(String, bool, bool)>, j: int) -> int {
    len - 2 - flags_before(args, j) - (if args[j].2 {
        1int
    } else {
        0int
    })
}

/// Whether `a` is the parameter that parameter `j` of the build info `args`
/// becomes, read off the stack `stack` over the state `g0`: it has the name
/// and the span of the build info, the pattern that stands at its place on
/// the stack, where it has one, and as default a deep copy, in a slot that
/// `g0` did not have, of what stands at its place, where it has one.
pub open spec fn arg_made(
    a: MacroArgView,
    args: Seq<(String, bool, bool)>,
    span: (usize, usize),
    j: int,
    stack: Seq<ValueKey>,
    g0: &Globals,
    g1: &Globals,
    code: &Code,
) -> bool {
    &&& a.name == args[j].0@
    &&& a.area == (CodeArea { source: code.source, start: span.0, end: span.1 })
    &&& (a.pattern is Some) == args[j].1
    &&& (a.default is Some) == args[j].2
    &&& (a.pattern matches Some(p) ==> 0 <= pattern_at(stack.len() as int, args, j) < stack.len()
        && as_pattern(at(g0, stack[pattern_at(stack.len() as int, args, j)]).value) == Some(p.0)
        && p.1 == at(g0, stack[pattern_at(stack.len() as int, args, j)]).def_area)
    &&& (a.default matches Some(d) ==> 0 <= default_at(stack.len() as int, args, j) < stack.len()
        && g1.memory.fresh(&g0.memory, d) && crate::memory::alike(
        &g0.memory,
        stack[default_at(stack.len() as int, args, j)],
        &g1.memory,
        d,
    ))
}

/// How many parameters `MakeMacro` reads: as many as the build info and the
/// spans both have.
pub open spec fn params_read(info: &crate::bytecode::MacroBuildInfo, spans: Seq<(usize, usize)>) -> int {
    if info.args@.len() < spans.len() {
        info.args@.len() as int
    } else {
        spans.len() as int
    }
}

/// Whether `m`, stored at `area`, is the macro that `MakeMacro` makes of the
/// build info `info` and the spans `spans`, read off the stack of `ctx0` over
/// the state `g0`: it runs the function of the build info, returns what the
/// top of the stack says, has the parameters of the build info in the
/// opposite order, each as [`arg_made`] has it, and captured the innermost
/// values of the variables that its function captures.
pub open spec fn macro_made(
    m: MacroView,
    info: &crate::bytecode::MacroBuildInfo,
    spans: Seq<(usize, usize)>,
    ctx0: &Context,
    g0: &Globals,
    g1: &Globals,
    code: &Code,
) -> bool {
    let n = params_read(info, spans);
    &&& ctx0.stack@.len() > 0
    &&& info.func_id < code.bytecode_funcs@.len()
    &&& m.func_id == info.func_id
    &&& Some(m.ret_type.0) == as_pattern(at(g0, ctx0.stack@.last()).value)
    &&& m.ret_type.1 == at(g0, ctx0.stack@.last()).def_area
    &&& m.args.len() == n
    &&& forall|q: int|
        0 <= q < n ==> #[trigger] arg_made(
            m.args[q],
            info.args@,
            spans[n - 1 - q],
            n - 1 - q,
            ctx0.stack@,
            g0,
            g1,
            code,
        )
    &&& m.capture.len() == code.bytecode_funcs@[info.func_id as int].capture_ids@.len()
    &&& forall|q: int|
        0 <= q < m.capture.len() ==> #[trigger] is_var_key(
            ctx0,
            code.bytecode_funcs@[info.func_id as int].capture_ids@[q],
            m.capture[q],
        )
}

/// The parameters further on in a build info have at least as many
/// patterns and defaults before them.
pub proof fn lemma_flags_rise(args: Seq<(String, bool, bool)>, a: int, b: int)
    requires
        0 <= a <= b,
    ensures
        0 <= flags_before(args, a) <= flags_before(args, b),
    decreases b,
{
    if a < b {
        lemma_flags_rise(args, a, b - 1);
    } else if a > 0 {
        lemma_flags_rise(args, a - 1, a - 1);
    }
}

/// Whether the value in slot `k` of the stack stands where `MakeMacro`
/// reads a pattern, the return pattern or that of one of the first `n`
/// parameters, and is none.
pub open spec fn no_pattern_at(
    args: Seq<(String, bool, bool)>,
    n: int,
    stack: Seq<ValueKey>,
    g: &Globals,
    p: int,
) -> bool {
    &&& 0 <= p < stack.len()
    &&& as_pattern(at(g, stack[p]).value) is None
    &&& (p == stack.len() - 1 || exists|j: int|
        0 <= j < n && args[j].1 && p == #[trigger] pattern_at(stack.len() as int, args, j))
}

/// Whether a macro can be made of the build info `info` and the first `n`
/// of its parameters, read off `stack`: the function is there, the stack
/// holds what is to be read, a pattern stands wherever one is read, and every
/// variable that the function captures has a value.
pub open spec fn makeable(
    info: &crate::bytecode::MacroBuildInfo,
    n: int,
    ctx: &Context,
    g: &Globals,
    code: &Code,
) -> bool {
    &&& info.func_id < code.bytecode_funcs@.len()
    &&& ctx.stack@.len() >= 1 + flags_before(info.args@, n)
    &&& forall|p: int| !no_pattern_at(info.args@, n, ctx.stack@, g, p)
    &&& forall|q: int|
        0 <= q < code.bytecode_funcs@[info.func_id as int].capture_ids@.len() ==> #[trigger] is_var(
            ctx,
            code.bytecode_funcs@[info.func_id as int].capture_ids@[q],
        )
}

/// Whether the error `e` is one that `MakeMacro` gives and has its cause:
/// the arena is full; or no macro can be made, and a value that should be a
/// pattern is none, or the bytecode asks for what is not there.
pub open spec fn making_fails(
    e: RuntimeErrorView,
    info: &crate::bytecode::MacroBuildInfo,
    n: int,
    ctx: &Context,
    g: &Globals,
    code: &Code,
    func: usize,
    index: usize,
) -> bool {
    match e {
        RuntimeErrorView::MemoryExhausted => true,
        RuntimeErrorView::MalformedBytecode { func: ef, index: ei } => ef == func && ei == index
            && !makeable(info, n, ctx, g, code),
        RuntimeErrorView::CannotConvert { a, to } => to == ValueType::Pattern && exists|p: int| #[trigger]
            no_pattern_at(info.args@, n, ctx.stack@, g, p) && a == at(g, ctx.stack@[p]),
        _ => false,
    }
}

/// What [`run_make_macro`] does to the context and the shared state, and how
/// the context goes on.
pub open spec fn make_macro_effect(
    id: InstrNum,
    ctx0: &Context,
    ctx1: &Context,
    g0: &Globals,
    g1: &Globals,
    code: &Code,
    func: usize,
    index: usize,
    r: Result<Flow, RuntimeError>,
) -> bool {
    &&& kept(ctx0, g0, ctx1, g1)
    &&& only_stored(g0, g1)
    &&& ctx1.same_but_stack(ctx0)
    &&& (id >= code.macro_build_info@.len() || (forall|i: int| !code.spans_at(func, index, i))
        ==> fails_malformed(r, func, index))
    &&& (forall|at_spans: int|
        id < code.macro_build_info@.len() && #[trigger] code.spans_at(func, index, at_spans) ==> ({
            let info = &code.macro_build_info@[id as int];
            let spans = code.macro_arg_spans@[at_spans].spans@;
            let n = params_read(info, spans);
            let made = at(g1, ctx1.stack@.last());
            match r {
                Ok(f) => f is Next && ctx1.stack@.len() > 0 && makeable(info, n, ctx0, g0, code)
                    && replaced_top(ctx0, ctx1, 1 + flags_before(info.args@, n)) && made.def_area
                    == code.area_of(func, index) && (made.value matches ValueView::Macro(m)
                    && macro_made(m, info, spans, ctx0, g0, g1, code)),
                Err(e) => making_fails(e@, info, n, ctx0, g0, code, func, index),
            }
        }))
}

/// Reads the first `n` parameters of a build info off the stack, the first
/// parameter first: for each its default, where it has one, and below it its
/// pattern, where it has one.
fn read_params(
    ctx: &mut Context,
    globals: &mut Globals,
    code: &Code,
    info: &Vec<(String, bool, bool)>,
    spans: &Vec<(usize, usize)>,
    n: usize,
    func: usize,
    index: usize,
    Ghost(s0): Ghost<Seq<ValueKey>>,
    Ghost(g0): Ghost<Globals>,
) -> (r: Result<Vec<MacroArg>, RuntimeError>)
    requires
        ready(old(ctx), old(globals)),
        n <= info@.len(),
        n <= spans@.len(),
        s0.len() > 0,
        old(ctx).stack@ == s0.take(s0.len() - 1),
        g0.wf(),
        *old(globals) == g0,
        forall|i: int| 0 <= i < s0.len() ==> g0.memory.contains(#[trigger] s0[i]),
    ensures
        kept(old(ctx), old(globals), final(ctx), final(globals)),
        only_stored(old(globals), final(globals)),
        final(ctx).same_but_stack(old(ctx)),
        final(ctx).stack@.len() <= old(ctx).stack@.len(),
        forall|i: int|
            0 <= i < final(ctx).stack@.len() ==> #[trigger] final(ctx).stack@[i] == old(ctx).stack@[i],
        match r {
            Ok(args) => args@.len() == n && 0 <= flags_before(info@, n as int) <= s0.len() - 1
                && final(ctx).stack@ == s0.take(s0.len() - 1 - flags_before(info@, n as int))
                && forall|q: int|
                0 <= q < n ==> #[trigger] arg_made(
                    args@[q]@,
                    info@,
                    spans@[q],
                    q,
                    s0,
                    &g0,
                    final(globals),
                    code,
                ),
            Err(e) => match e@ {
                RuntimeErrorView::MemoryExhausted => final(globals).memory.slots().len()
                    >= crate::memory::ARENA_LIMIT,
                RuntimeErrorView::MalformedBytecode { func: ef, index: ei } => ef == func && ei
                    == index && s0.len() < 1 + flags_before(info@, n as int),
                RuntimeErrorView::CannotConvert { a, to } => to == ValueType::Pattern && exists|
                    j: int,
                |
                    0 <= j < n && info@[j].1 && 0 <= #[trigger] pattern_at(
                        s0.len() as int,
                        info@,
                        j,
                    ) < s0.len() - 1 && as_pattern(
                        at(&g0, s0[pattern_at(s0.len() as int, info@, j)]).value,
                    ) is None && a == at(&g0, s0[pattern_at(s0.len() as int, info@, j)]),
                _ => false,
            },
        },
{
    let ghost len = s0.len() as int;
    let mut args: Vec<MacroArg> = Vec::new();
    let mut j: usize = 0;
    proof {
        lemma_follows_self(globals);
    }
    while j < n
        invariant
            j <= n,
            n <= info@.len(),
            n <= spans@.len(),
            ready(ctx, globals),
            globals.follows(old(globals)),
            only_stored(old(globals), globals),
            ctx.same_but_stack(old(ctx)),
            ctx.pos == old(ctx).pos,
            *old(globals) == g0,
            g0.wf(),
            len == s0.len(),
            forall|i: int| 0 <= i < s0.len() ==> g0.memory.contains(#[trigger] s0[i]),
            0 <= flags_before(info@, j as int) <= len - 1,
            old(ctx).stack@ == s0.take(len - 1),
            ctx.stack@ == s0.take(len - 1 - flags_before(info@, j as int)),
            args@.len() == j,
            forall|q: int|
                0 <= q < j ==> #[trigger] arg_made(
                    args@[q]@,
                    info@,
                    spans@[q],
                    q,
                    s0,
                    &g0,
                    globals,
                    code,
                ),
        decreases n - j,
    {
        let ghost g1 = *globals;
        let ghost done = args@;
        let ghost fb = flags_before(info@, j as int);
        let ghost cur = ctx.stack@;
        let default = if info[j].2 {
            match pop_deep_clones(ctx, globals, 1, func, index) {
                Ok(c) => {
                    proof {
                        let key = s0[len - 2 - fb];
                        assert(cur.skip(cur.len() - 1)[0] == key);
                        assert(g0.memory.contains(key));
                        crate::memory::lemma_alike_source_grows(
                            &g0.memory,
                            &g1.memory,
                            key,
                            &globals.memory,
                            c@[0],
                        );
                        assert(ctx.stack@ =~= s0.take(len - 2 - fb));
                    }
                    Some(c[0])
                },
                Err(e) => {
                    proof {
                        lemma_follows_chain(old(globals), &g1, globals);
                        lemma_flags_rise(info@, j + 1, n as int);
                        assert(ctx.stack@.len() <= cur.len());
                        assert forall|i: int| 0 <= i < ctx.stack@.len() implies #[trigger] ctx.stack@[i]
                            == old(ctx).stack@[i] by {
                            assert(ctx.stack@[i] == cur[i]);
                            assert(cur[i] == s0[i]);
                        }
                    }
                    return Err(e);
                },
            }
        } else {
            None
        };
        proof {
            lemma_follows_chain(old(globals), &g1, globals);
            assert forall|q: int| 0 <= q < j implies #[trigger] arg_made(
                done[q]@,
                info@,
                spans@[q],
                q,
                s0,
                &g0,
                globals,
                code,
            ) by {
                assert(arg_made(done[q]@, info@, spans@[q], q, s0, &g0, &g1, code));
                if done[q]@.default is Some {
                    crate::memory::lemma_alike_copy_grows(
                        &g0.memory,
                        s0[default_at(len, info@, q)],
                        &g1.memory,
                        &globals.memory,
                        done[q]@.default->0,
                    );
                }
            }
        }
        let pattern = if info[j].1 {
            let k2 = match ctx.pop_key() {
                Some(k) => k,
                None => {
                    proof {
                        lemma_flags_rise(info@, j + 1, n as int);
                        assert(ctx.stack@.len() <= cur.len());
                        assert forall|i: int| 0 <= i < ctx.stack@.len() implies #[trigger] ctx.stack@[i]
                            == old(ctx).stack@[i] by {
                            assert(ctx.stack@[i] == cur[i]);
                            assert(cur[i] == s0[i]);
                        }
                    }
                    return Err(malformed(func, index));
                },
            };
            assert(k2 == s0[pattern_at(len, info@, j as int)]);
            assert(g0.memory.contains(k2));
            assert(globals.memory.contains(k2));
            let value = globals.memory.get(k2);
            assert(value@ == at(&g0, k2));
            match to_pat(value) {
                Ok(p) => Some((p, value.def_area)),
                Err(e) => {
                    proof {
                        assert(ctx.stack@.len() <= cur.len());
                        assert forall|i: int| 0 <= i < ctx.stack@.len() implies #[trigger] ctx.stack@[i]
                            == old(ctx).stack@[i] by {
                            assert(ctx.stack@[i] == cur[i]);
                            assert(cur[i] == s0[i]);
                        }
                    }
                    return Err(e);
                },
            }
        } else {
            None
        };
        args.push(
            MacroArg { name: info[j].0.clone(), area: code.make_area(spans[j]), pattern, default },
        );
        proof {
            assert(ctx.stack@ =~= s0.take(len - 1 - flags_before(info@, j + 1)));
            assert forall|q: int| 0 <= q < j + 1 implies #[trigger] arg_made(
                args@[q]@,
                info@,
                spans@[q],
                q,
                s0,
                &g0,
                globals,
                code,
            ) by {
                if q < j {
                    assert(args@[q] == done[q]);
                }
            }
        }
        j += 1;
    }
    Ok(args)
}

/// Runs `MakeMacro`: takes the return pattern off the stack and then, for
/// each parameter of the build info in its order there, the default, where it
/// has one, and the pattern, where it has one. The macro gets the parameters
/// in the opposite order, deep copies of the defaults, and, as captured, the
/// keys of the variables that its function captures.
pub fn run_make_macro(
    id: InstrNum,
    ctx: &mut Context,
    globals: &mut Globals,
    code: &Code,
    func: usize,
    index: usize,
) -> (r: Result<Flow, RuntimeError>)
    requires
        ready(old(ctx), old(globals)),
    ensures
        out_of_room(r, final(globals)),
        nothing_pushed(r, old(ctx), final(ctx)),
        make_macro_effect(id, old(ctx), final(ctx), old(globals), final(globals), code, func, index, r),
{
    if (id as usize) >= code.macro_build_info.len() {
        return Err(malformed(func, index));
    }
    let info = &code.macro_build_info[id as usize];
    let at_spans = match code.arg_spans(func, index) {
        Some(i) => i,
        None => {
            return Err(malformed(func, index));
        },
    };
    let spans = &code.macro_arg_spans[at_spans].spans;
    let n = if info.args.len() < spans.len() {
        info.args.len()
    } else {
        spans.len()
    };
    let ghost s0 = ctx.stack@;
    let ghost len = s0.len() as int;
    proof {
        assert forall|i: int| #[trigger] code.spans_at(func, index, i) implies i == at_spans by {
            code.lemma_spans_at_one(func, index, i, at_spans as int);
        }
        lemma_flags_rise(info.args@, 0, n as int);
    }
    if info.func_id >= code.bytecode_funcs.len() {
        return Err(malformed(func, index));
    }
    let area = code.area_at(func, index);
    let k = match ctx.pop_key() {
        Some(k) => k,
        None => {
            return Err(malformed(func, index));
        },
    };
    assert(ctx.live(&globals.memory));
    assert(globals.memory.contains(k));
    let ret_type: (Pattern, CodeArea) = {
        let value = globals.memory.get(k);
        match to_pat(value) {
            Ok(p) => (p, value.def_area),
            Err(e) => {
                assert(no_pattern_at(info.args@, n as int, s0, old(globals), len - 1));
                return Err(e);
            },
        }
    };
    proof {
        assert(ctx.stack@ =~= s0.take(len - 1));
    }
    let forward = match read_params(
        ctx,
        globals,
        code,
        &info.args,
        spans,
        n,
        func,
        index,
        Ghost(s0),
        Ghost(*old(globals)),
    ) {
        Ok(a) => a,
        Err(e) => {
            proof {
                if e@ is CannotConvert {
                    let j = choose|j: int|
                        0 <= j < n && info.args@[j].1 && 0 <= #[trigger] pattern_at(
                            len,
                            info.args@,
                            j,
                        ) < len - 1 && as_pattern(
                            at(old(globals), s0[pattern_at(len, info.args@, j)]).value,
                        ) is None && e@->CannotConvert_a == at(
                            old(globals),
                            s0[pattern_at(len, info.args@, j)],
                        );
                    assert(no_pattern_at(
                        info.args@,
                        n as int,
                        s0,
                        old(globals),
                        pattern_at(len, info.args@, j),
                    ));
                }
            }
            return Err(e);
        },
    };
    let ghost fwd = forward@;
    let args = reversed(forward);
    let capture = match captured_keys(ctx, &code.bytecode_funcs[info.func_id].capture_ids) {
        Some(c) => c,
        None => {
            proof {
                let ids = code.bytecode_funcs@[info.func_id as int].capture_ids@;
                let q = choose|q: int| 0 <= q < ids.len() && !#[trigger] is_var(ctx, ids[q]);
                assert(!is_var(old(ctx), ids[q]));
            }
            return Err(malformed(func, index));
        },
    };
    let ghost caps = capture@;
    let mac = Macro { func_id: info.func_id, args, capture, ret_type };
    let v = Value::Macro(mac).into_stored(area);
    let ghost mv = v@.value->Macro_0;
    let ghost ctx2 = *ctx;
    proof {
        lemma_macro_admitted(
            mv,
            fwd,
            &info.args@,
            spans@,
            s0,
            old(globals),
            globals,
            code,
            ctx,
            code.bytecode_funcs@[info.func_id as int].capture_ids@,
        );
    }
    let ghost g2 = *globals;
    proof {
        assert forall|q: int| 0 <= q < mv.args.len() implies (#[trigger] mv.args[q]).default matches Some(
            d,
        ) ==> !old(globals).memory.contains(d) by {
            let f = fwd[fwd.len() - 1 - q];
            assert(mv.args[q] == f@);
            assert(arg_made(
                f@,
                info.args@,
                spans@[fwd.len() - 1 - q],
                fwd.len() - 1 - q,
                s0,
                old(globals),
                &g2,
                code,
            ));
        }
        assert forall|i: int| 0 <= i < v@.value.parts().len() implies !old(globals).memory.contains(
            #[trigger] v@.value.parts()[i],
        ) by {
            let w = lemma_part_is_default(mv.args, i);
            assert(mv.args[w].default == Some(v@.value.parts()[i]));
        }
    }
    match push_value(ctx, globals, v) {
        Ok(_) => {
            proof {
                lemma_follows_chain(old(globals), &g2, globals);
                assert forall|q: int| 0 <= q < n implies #[trigger] arg_made(
                    mv.args[q],
                    info.args@,
                    spans@[n - 1 - q],
                    n - 1 - q,
                    s0,
                    old(globals),
                    globals,
                    code,
                ) by {
                    let f = fwd[n - 1 - q];
                    assert(mv.args[q] == f@);
                    assert(arg_made(
                        f@,
                        info.args@,
                        spans@[n - 1 - q],
                        n - 1 - q,
                        s0,
                        old(globals),
                        &g2,
                        code,
                    ));
                    if f@.default is Some {
                        crate::memory::lemma_alike_copy_grows(
                            &old(globals).memory,
                            s0[default_at(len, info.args@, n - 1 - q)],
                            &g2.memory,
                            &globals.memory,
                            f@.default->0,
                        );
                    }
                }
                assert forall|q: int| 0 <= q < mv.capture.len() implies #[trigger] is_var_key(
                    old(ctx),
                    code.bytecode_funcs@[info.func_id as int].capture_ids@[q],
                    mv.capture[q],
                ) by {
                    assert(is_var_key(
                        &ctx2,
                        code.bytecode_funcs@[info.func_id as int].capture_ids@[q],
                        caps[q],
                    ));
                }
                assert(macro_made(mv, info, spans@, old(ctx), old(globals), globals, code));
                assert forall|p: int| !no_pattern_at(
                    info.args@,
                    n as int,
                    s0,
                    old(globals),
                    p,
                ) by {
                    if no_pattern_at(info.args@, n as int, s0, old(globals), p) && p != len - 1 {
                        let j = choose|j: int|
                            0 <= j < n && info.args@[j].1 && p == #[trigger] pattern_at(
                                len,
                                info.args@,
                                j,
                            );
                        assert(arg_made(
                            fwd[j]@,
                            info.args@,
                            spans@[j],
                            j,
                            s0,
                            old(globals),
                            &g2,
                            code,
                        ));
                    }
                }
                assert forall|q: int|
                    0 <= q < code.bytecode_funcs@[info.func_id as int].capture_ids@.len() implies #[trigger] is_var(
                    old(ctx),
                    code.bytecode_funcs@[info.func_id as int].capture_ids@[q],
                ) by {
                    assert(is_var_key(
                        &ctx2,
                        code.bytecode_funcs@[info.func_id as int].capture_ids@[q],
                        caps[q],
                    ));
                }
            }
            Ok(Flow::Next)
        },
        Err(e) => {
            proof {
                lemma_follows_chain(old(globals), &g2, globals);
            }
            Err(e)
        },
    }
}

/// A macro whose parameters were read off the stack, with deep copies as
/// defaults, and which captured keys of variables of a context that holds
/// keys of slots only, holds keys of slots only.
proof fn lemma_macro_admitted(
    mv: MacroView,
    forward: Seq<MacroArg>,
    info: &Seq<(String, bool, bool)>,
    spans: Seq<(usize, usize)>,
    s0: Seq<ValueKey>,
    g0: &Globals,
    g1: &Globals,
    code: &Code,
    ctx: &Context,
    ids: Seq<InstrNum>,
)
    requires
        mv.args == forward.reverse().map_values(|a: MacroArg| a@),
        forward.len() <= spans.len(),
        forall|q: int|
            0 <= q < forward.len() ==> #[trigger] arg_made(
                forward[q]@,
                *info,
                spans[q],
                q,
                s0,
                g0,
                g1,
                code,
            ),
        ctx.live(&g1.memory),
        ids.len() == mv.capture.len(),
        forall|q: int| 0 <= q < ids.len() ==> #[trigger] is_var_key(ctx, ids[q], mv.capture[q]),
    ensures
        g1.memory.admits(ValueView::Macro(mv)),
{
    let v = ValueView::Macro(mv);
    assert forall|q: int| 0 <= q < v.parts().len() implies g1.memory.contains(
        #[trigger] v.parts()[q],
    ) by {
        let w = lemma_part_is_default(mv.args, q);
        assert(mv.args[w] == forward[forward.len() - 1 - w]@);
        assert(arg_made(
            forward[forward.len() - 1 - w]@,
            *info,
            spans[forward.len() - 1 - w],
            forward.len() - 1 - w,
            s0,
            g0,
            g1,
            code,
        ));
    }
    assert forall|q: int| 0 <= q < v.captured().len() implies g1.memory.contains(
        #[trigger] v.captured()[q],
    ) by {
        assert(is_var_key(ctx, ids[q], mv.capture[q]));
        assert(v.captured()[q] == ctx.vars@[ids[q] as int]@[ctx.vars@[ids[q] as int]@.len() - 1]);
    }
}

/// Whether every key among `fill` is the key of a slot of `m`.
pub open spec fn fill_live(fill: Seq<Option<ValueKey>>, m: &Memory) -> bool {
    forall|q: int| 0 <= q < fill.len() ==> ((#[trigger] fill[q]) matches Some(k) ==> m.contains(k))
}

/// Whether `p` is the position of the first parameter named `name`.
pub open spec fn is_position(args: Seq<MacroArgView>, name: Seq<char>, p: int) -> bool {
    &&& 0 <= p < args.len()
    &&& args[p].name == name
    &&& forall|q: int| 0 <= q < p ==> (#[trigger] args[q]).name != name
}

/// Whether a parameter is named `name`.
pub open spec fn has_param(args: Seq<MacroArgView>, name: Seq<char>) -> bool {
    exists|p: int| is_position(args, name, p)
}

/// The position of the first parameter named `name`.
pub open spec fn position_of(args: Seq<MacroArgView>, name: Seq<char>) -> int {
    choose|p: int| is_position(args, name, p)
}

/// The first parameter of a name has one position.
pub proof fn lemma_position_unique(args: Seq<MacroArgView>, name: Seq<char>, p: int)
    requires
        is_position(args, name, p),
    ensures
        has_param(args, name),
        position_of(args, name) == p,
{
    let w = position_of(args, name);
    assert(is_position(args, name, w));
    if w < p {
        assert(args[w].name != name);
    } else if p < w {
        assert(args[p].name != name);
    }
}

/// The position of the first parameter named `name` of the macro, if it
/// has one.
pub fn param_position(m: &Macro, name: &String) -> (r: Option<usize>)
    ensures
        match r {
            Some(p) => has_param(m@.args, name@) && p == position_of(m@.args, name@) && p
                < m.args@.len(),
            None => !has_param(m@.args, name@),
        },
{
    let mut p: usize = 0;
    while p < m.args.len()
        invariant
            p <= m.args.len(),
            forall|q: int| 0 <= q < p ==> (#[trigger] m@.args[q]).name != name@,
        decreases m.args.len() - p,
    {
        assert(m@.args[p as int] == m.args@[p as int]@);
        if m.args[p].name == *name {
            proof {
                lemma_position_unique(m@.args, name@, p as int);
            }
            return Some(p);
        }
        p += 1;
    }
    assert forall|q: int| !is_position(m@.args, name@, q) by {
        if 0 <= q < m@.args.len() {
            assert(m@.args[q].name != name@);
        }
    }
    None
}

/// The key of the argument of the name `j` of a call, on the stack below
/// the macro: the first name has the topmost argument.
pub open spec fn argument_at(stack: Seq<ValueKey>, j: int) -> ValueKey {
    stack[stack.len() - 1 - j]
}

/// The arguments without a name among those of the first `n` names, in the
/// order of the names: the key of each and which name it has.
pub open spec fn positional(names: Seq<Seq<char>>, stack: Seq<ValueKey>, n: int) -> Seq<
    (ValueKey, int),
>
    decreases n,
{
    if n <= 0 {
        Seq::<(ValueKey, int)>::empty()
    } else {
        let r = positional(names, stack, n - 1);
        if names[n - 1].len() == 0 {
            r.push((argument_at(stack, n - 1), n - 1))
        } else {
            r
        }
    }
}

/// The arguments with a name among those of the first `n` names, in the
/// order of the names: the position of the parameter of each, its key, and
/// which name it has.
pub open spec fn named(
    args: Seq<MacroArgView>,
    names: Seq<Seq<char>>,
    stack: Seq<ValueKey>,
    n: int,
) -> Seq<(int, ValueKey, int)>
    decreases n,
{
    if n <= 0 {
        Seq::<(int, ValueKey, int)>::empty()
    } else {
        let r = named(args, names, stack, n - 1);
        if names[n - 1].len() > 0 {
            r.push((position_of(args, names[n - 1]), argument_at(stack, n - 1), n - 1))
        } else {
            r
        }
    }
}

/// Whether each of the first `n` names that is not empty names a parameter.
pub open spec fn names_known(args: Seq<MacroArgView>, names: Seq<Seq<char>>, n: int) -> bool {
    forall|j: int| 0 <= j < n && names[j].len() > 0 ==> has_param(args, #[trigger] names[j])
}

/// What the parameters hold before any argument is given: their defaults.
pub open spec fn defaults(args: Seq<MacroArgView>) -> Seq<Option<ValueKey>> {
    args.map_values(|a: MacroArgView| a.default)
}

/// What the parameters hold once the first `a` of them have their
/// positional arguments: the arguments came off the stack the last first, so
/// the first parameter has the last of `pos`.
pub open spec fn with_positional(
    fill: Seq<Option<ValueKey>>,
    pos: Seq<(ValueKey, int)>,
    a: int,
) -> Seq<Option<ValueKey>>
    decreases a,
{
    if a <= 0 {
        fill
    } else {
        with_positional(fill, pos, a - 1).update(a - 1, Some(pos[pos.len() - a].0))
    }
}

/// What the parameters hold once the named arguments from `b` on are given,
/// the last first: of two arguments for one parameter the earlier stays.
pub open spec fn with_named(
    fill: Seq<Option<ValueKey>>,
    given: Seq<(int, ValueKey, int)>,
    b: int,
) -> Seq<Option<ValueKey>>
    decreases given.len() - b,
{
    if b >= given.len() {
        fill
    } else {
        with_named(fill, given, b + 1).update(given[b].0, Some(given[b].1))
    }
}

/// What each parameter of the macro holds once the arguments of a call with
/// the first `n` names of `names` are read off `stack`, the stack below the
/// macro: its named argument; else its positional one; else its default.
pub open spec fn filled(
    m: MacroView,
    names: Seq<Seq<char>>,
    stack: Seq<ValueKey>,
    n: int,
) -> Seq<Option<ValueKey>> {
    with_named(
        with_positional(
            defaults(m.args),
            positional(names, stack, n),
            positional(names, stack, n).len() as int,
        ),
        named(m.args, names, stack, n),
        0,
    )
}

/// Whether the value in slot `k` matches the pattern of parameter `q`, where
/// the parameter has one.
pub open spec fn fits_param(m: MacroView, q: int, k: ValueKey, g: &Globals) -> bool {
    m.args[q].pattern matches Some(p) ==> crate::value_ops::fits(g.memory.value(k), p.0)
}

/// Whether every argument of a call matches the pattern of its parameter.
pub open spec fn arguments_fit(
    m: MacroView,
    names: Seq<Seq<char>>,
    stack: Seq<ValueKey>,
    n: int,
    g: &Globals,
) -> bool {
    let pos = positional(names, stack, n);
    let given = named(m.args, names, stack, n);
    &&& forall|i: int| 0 <= i < pos.len() ==> #[trigger] fits_param(m, i, pos[pos.len() - 1 - i].0, g)
    &&& forall|b: int| 0 <= b < given.len() ==> #[trigger] fits_param(m, given[b].0, given[b].1, g)
}

/// Whether a call with the first `n` names of `names` on a macro `m` can
/// read its arguments off `stack`, the stack below the macro: the stack has
/// an argument for each name, each name that is not empty names a parameter,
/// the macro has a parameter for each positional argument, and every argument
/// matches the pattern of its parameter.
pub open spec fn arguments_read(
    m: MacroView,
    names: Seq<Seq<char>>,
    stack: Seq<ValueKey>,
    n: int,
    g: &Globals,
) -> bool {
    &&& stack.len() >= n
    &&& names_known(m.args, names, n)
    &&& positional(names, stack, n).len() <= m.args.len()
    &&& arguments_fit(m, names, stack, n, g)
}

/// The error for the argument in slot `k`, read at `span`, that does not
/// match the pattern of parameter `q`: it holds the argument, the pattern
/// and the area of the argument.
pub open spec fn mismatch(
    m: MacroView,
    q: int,
    k: ValueKey,
    span: (usize, usize),
    g: &Globals,
    code: &Code,
) -> RuntimeErrorView {
    RuntimeErrorView::PatternMismatch {
        v: at(g, k),
        pat: m.args[q].pattern->0,
        area: CodeArea { source: code.source, start: span.0, end: span.1 },
    }
}

/// Whether the positional argument for parameter `i` is the first, in the
/// order of the parameters, that does not match its pattern.
pub open spec fn first_positional_misfit(
    m: MacroView,
    pos: Seq<(ValueKey, int)>,
    i: int,
    g: &Globals,
) -> bool {
    &&& 0 <= i < pos.len()
    &&& !fits_param(m, i, pos[pos.len() - 1 - i].0, g)
    &&& forall|x: int| 0 <= x < i ==> #[trigger] fits_param(m, x, pos[pos.len() - 1 - x].0, g)
}

/// Whether the named argument `b` is the first, from the last one back,
/// that does not match the pattern of its parameter.
pub open spec fn first_named_misfit(
    m: MacroView,
    given: Seq<(int, ValueKey, int)>,
    b: int,
    g: &Globals,
) -> bool {
    &&& 0 <= b < given.len()
    &&& !fits_param(m, given[b].0, given[b].1, g)
    &&& forall|x: int| b < x < given.len() ==> #[trigger] fits_param(m, given[x].0, given[x].1, g)
}

/// Whether `e` is the error for the first argument that does not match the
/// pattern of its parameter: the positional arguments are tried first, in
/// the order of the parameters, then the named ones, the last first.
pub open spec fn misfit(
    e: RuntimeErrorView,
    m: MacroView,
    names: Seq<Seq<char>>,
    spans: Seq<(usize, usize)>,
    stack: Seq<ValueKey>,
    n: int,
    g: &Globals,
    code: &Code,
) -> bool {
    let pos = positional(names, stack, n);
    let given = named(m.args, names, stack, n);
    ||| exists|i: int| #[trigger]
        first_positional_misfit(m, pos, i, g) && e == mismatch(
            m,
            i,
            pos[pos.len() - 1 - i].0,
            spans[pos[pos.len() - 1 - i].1],
            g,
            code,
        )
    ||| (forall|x: int| 0 <= x < pos.len() ==> #[trigger] fits_param(m, x, pos[pos.len() - 1 - x].0, g))
        && exists|b: int| #[trigger]
        first_named_misfit(m, given, b, g) && e == mismatch(
            m,
            given[b].0,
            given[b].1,
            spans[given[b].2],
            g,
            code,
        )
}

/// Whether the error `e` is one that reading the arguments of a call can
/// give, and has its cause: the stack has too few arguments; a name names no
/// parameter; there are more positional arguments than parameters; or an
/// argument does not match the pattern of its parameter.
pub open spec fn reading_fails(
    e: RuntimeErrorView,
    m: MacroView,
    base: StoredValueView,
    names: Seq<Seq<char>>,
    spans: Seq<(usize, usize)>,
    stack: Seq<ValueKey>,
    n: int,
    g: &Globals,
    code: &Code,
    func: usize,
    index: usize,
) -> bool {
    match e {
        RuntimeErrorView::MalformedBytecode { func: f, index: i } => f == func && i == index
            && stack.len() < n,
        RuntimeErrorView::UndefinedArgument { name, macr, area } => macr == base && exists|j: int|
            0 <= j < n && #[trigger] names[j] == name && name.len() > 0 && !has_param(m.args, name)
                && area == (CodeArea { source: code.source, start: spans[j].0, end: spans[j].1 }),
        RuntimeErrorView::TooManyArguments { expected, provided, call_area, func: f } => f == base
            && stack.len() >= n && names_known(m.args, names, n) && expected == m.args.len()
            && provided == positional(names, stack, n).len() && provided > expected && call_area
            == code.area_of(func, index),
        RuntimeErrorView::PatternMismatch { .. } => stack.len() >= n && names_known(
            m.args,
            names,
            n,
        ) && positional(names, stack, n).len() <= m.args.len() && !arguments_fit(
            m,
            names,
            stack,
            n,
            g,
        ) && misfit(e, m, names, spans, stack, n, g, code),
        _ => false,
    }
}

/// Gives the parameter `at` of the macro the argument in slot `k`, read at
/// `span`, if the argument matches the pattern of the parameter.
fn give(
    fill: &mut Vec<Option<ValueKey>>,
    m: &Macro,
    at: usize,
    k: ValueKey,
    span: (usize, usize),
    code: &Code,
    globals: &Globals,
) -> (r: Result<(), RuntimeError>)
    requires
        at < m.args@.len(),
        old(fill)@.len() == m.args@.len(),
        globals.memory.contains(k),
        fill_live(old(fill)@, &globals.memory),
    ensures
        final(fill)@.len() == m.args@.len(),
        fill_live(final(fill)@, &globals.memory),
        match r {
            Ok(_) => final(fill)@ == old(fill)@.update(at as int, Some(k)) && fits_param(
                m@,
                at as int,
                k,
                globals,
            ),
            Err(e) => final(fill)@ == old(fill)@ && !fits_param(m@, at as int, k, globals) && e@
                == mismatch(m@, at as int, k, span, globals, code),
        },
{
    let val = globals.memory.get(k);
    assert(m@.args[at as int] == m.args@[at as int]@);
    match &m.args[at].pattern {
        Some(pat) => {
            if !matches_pat(&val.value, &pat.0) {
                return Err(
                    RuntimeError::PatternMismatch {
                        v: val.copy(),
                        pat: (pat.0.copy(), pat.1),
                        area: code.make_area(span),
                    },
                );
            }
        },
        None => {},
    }
    fill.set(at, Some(k));
    Ok(())
}

/// The keys and names of the positional arguments read.
pub open spec fn positional_view(v: Seq<(ValueKey, usize)>) -> Seq<(ValueKey, int)> {
    v.map_values(|p: (ValueKey, usize)| (p.0, p.1 as int))
}

/// The positions, keys and names of the named arguments read.
pub open spec fn named_view(v: Seq<(usize, ValueKey, usize)>) -> Seq<(int, ValueKey, int)> {
    v.map_values(|p: (usize, ValueKey, usize)| (p.0 as int, p.1, p.2 as int))
}

/// Takes the arguments of a call off the stack, as the names tell: an empty
/// name is a positional argument, any other a named one.
fn take_arguments(
    ctx: &mut Context,
    globals: &Globals,
    code: &Code,
    m: &Macro,
    base: &StoredValue,
    names: &Vec<String>,
    spans: &Vec<(usize, usize)>,
    n: usize,
    func: usize,
    index: usize,
) -> (r: Result<(Vec<(ValueKey, usize)>, Vec<(usize, ValueKey, usize)>), RuntimeError>)
    requires
        ready(old(ctx), globals),
        n <= names@.len(),
        n <= spans@.len(),
    ensures
        kept(old(ctx), globals, final(ctx), globals),
        final(ctx).same_but_stack(old(ctx)),
        final(ctx).stack@.len() <= old(ctx).stack@.len(),
        final(ctx).stack@ == old(ctx).stack@.take(final(ctx).stack@.len() as int),
        match r {
            Ok(read) => old(ctx).stack@.len() >= n && final(ctx).stack@.len() == old(ctx).stack@.len() - n && names_known(m@.args, names_view(names@), n as int)
                && positional_view(read.0@) == positional(
                names_view(names@),
                old(ctx).stack@,
                n as int,
            ) && named_view(read.1@) == named(
                m@.args,
                names_view(names@),
                old(ctx).stack@,
                n as int,
            ) && (forall|q: int|
                0 <= q < read.0@.len() ==> globals.memory.contains((#[trigger] read.0@[q]).0)
                    && read.0@[q].1 < n) && (forall|q: int|
                0 <= q < read.1@.len() ==> globals.memory.contains((#[trigger] read.1@[q]).1)
                    && read.1@[q].0 < m.args@.len() && read.1@[q].2 < n),
            Err(e) => reading_fails(
                e@,
                m@,
                base@,
                names_view(names@),
                spans@,
                old(ctx).stack@,
                n as int,
                globals,
                code,
                func,
                index,
            ) && (e@ is MalformedBytecode || e@ is UndefinedArgument),
        },
{
    let mut pos: Vec<(ValueKey, usize)> = Vec::new();
    let mut given: Vec<(usize, ValueKey, usize)> = Vec::new();
    let ghost s0 = ctx.stack@;
    let ghost nv = names_view(names@);
    let mut j: usize = 0;
    assert(s0.take(s0.len() as int) =~= s0);
    assert(positional_view(pos@) =~= positional(nv, s0, 0));
    assert(named_view(given@) =~= named(m@.args, nv, s0, 0));
    while j < n
        invariant
            j <= n,
            n <= names@.len(),
            n <= spans@.len(),
            nv == names_view(names@),
            s0 == old(ctx).stack@,
            globals.wf(),
            ctx.live(&globals.memory),
            ctx.same_but_stack(old(ctx)),
            s0.len() >= j,
            ctx.stack@ == s0.take(s0.len() - j),
            names_known(m@.args, nv, j as int),
            positional_view(pos@) == positional(nv, s0, j as int),
            named_view(given@) == named(m@.args, nv, s0, j as int),
            forall|q: int|
                0 <= q < pos@.len() ==> globals.memory.contains((#[trigger] pos@[q]).0) && pos@[q].1
                    < n,
            forall|q: int|
                0 <= q < given@.len() ==> globals.memory.contains((#[trigger] given@[q]).1)
                    && given@[q].0 < m.args@.len() && given@[q].2 < n,
        decreases n - j,
    {
        let name = &names[j];
        assert(nv[j as int] == names@[j as int]@);
        let ghost pv = positional_view(pos@);
        let ghost gv = named_view(given@);
        if name.as_str().unicode_len() == 0 {
            let k = match ctx.pop_key() {
                Some(k) => k,
                None => {
                    return Err(malformed(func, index));
                },
            };
            assert(k == argument_at(s0, j as int));
            pos.push((k, j));
            assert(positional_view(pos@) =~= pv.push((k, j as int)));
            assert(named_view(given@) =~= gv);
        } else {
            let p = match param_position(m, name) {
                Some(p) => p,
                None => {
                    return Err(
                        RuntimeError::UndefinedArgument {
                            name: name.clone(),
                            macr: base.copy(),
                            area: code.make_area(spans[j]),
                        },
                    );
                },
            };
            let k = match ctx.pop_key() {
                Some(k) => k,
                None => {
                    return Err(malformed(func, index));
                },
            };
            assert(k == argument_at(s0, j as int));
            given.push((p, k, j));
            assert(named_view(given@) =~= gv.push((p as int, k, j as int)));
            assert(positional_view(pos@) =~= pv);
        }
        assert(ctx.stack@ =~= s0.take(s0.len() - (j + 1)));
        assert forall|i: int| 0 <= i < j + 1 && nv[i].len() > 0 implies has_param(
            m@.args,
            #[trigger] nv[i],
        ) by {}
        j += 1;
    }
    Ok((pos, given))
}

/// Reads the arguments of a call off the stack, as the first `n` names of
/// the name set tell: an empty name is a positional argument, any other a
/// named one. Gives, for each parameter of the macro, the key of its
/// argument, or of its default where it got none, or nothing where it has
/// neither.
#[verifier::loop_isolation(false)]
#[verifier::rlimit(40)]
pub fn read_arguments(
    ctx: &mut Context,
    globals: &Globals,
    code: &Code,
    m: &Macro,
    base: &StoredValue,
    names: &Vec<String>,
    spans: &Vec<(usize, usize)>,
    func: usize,
    index: usize,
) -> (r: Result<Vec<Option<ValueKey>>, RuntimeError>)
    requires
        ready(old(ctx), globals),
        defaults_live(m.args@, &globals.memory),
    ensures
        kept(old(ctx), globals, final(ctx), globals),
        final(ctx).same_but_stack(old(ctx)),
        final(ctx).stack@.len() <= old(ctx).stack@.len(),
        final(ctx).stack@ == old(ctx).stack@.take(final(ctx).stack@.len() as int),
        ({
            let n = names_read(names@, spans@);
            match r {
                Ok(fill) => arguments_read(
                    m@,
                    names_view(names@),
                    old(ctx).stack@,
                    n,
                    globals,
                ) && fill@ == filled(m@, names_view(names@), old(ctx).stack@, n) && fill@.len()
                    == m.args@.len() && fill_live(
                    fill@,
                    &globals.memory,
                ) && final(ctx).stack@.len() == old(ctx).stack@.len() - n,
                Err(e) => reading_fails(
                    e@,
                    m@,
                    base@,
                    names_view(names@),
                    spans@,
                    old(ctx).stack@,
                    n,
                    globals,
                    code,
                    func,
                    index,
                ),
            }
        }),
{
    let area = code.area_at(func, index);
    let n = if names.len() < spans.len() {
        names.len()
    } else {
        spans.len()
    };
    let ghost s0 = ctx.stack@;
    let ghost nv = names_view(names@);
    let (pos, given) = match take_arguments(ctx, globals, code, m, base, names, spans, n, func, index) {
        Ok(read) => read,
        Err(e) => {
            return Err(e);
        },
    };
    let ghost pv = positional(nv, s0, n as int);
    let ghost gv = named(m@.args, nv, s0, n as int);
    if pos.len() > m.args.len() {
        return Err(
            RuntimeError::TooManyArguments {
                expected: m.args.len(),
                provided: pos.len(),
                call_area: area,
                func: base.copy(),
            },
        );
    }
    let mut fill: Vec<Option<ValueKey>> = Vec::new();
    let mut i: usize = 0;
    while i < m.args.len()
        invariant
            i <= m.args.len(),
            fill@.len() == i,
            defaults_live(m.args@, &globals.memory),
            forall|q: int| 0 <= q < i ==> #[trigger] fill@[q] == m.args@[q].default,
        decreases m.args.len() - i,
    {
        fill.push(m.args[i].default);
        i += 1;
    }
    assert(fill@ =~= defaults(m@.args));
    assert(fill_live(fill@, &globals.memory)) by {
        assert forall|q: int| 0 <= q < fill@.len() implies ((#[trigger] fill@[q]) matches Some(k)
            ==> globals.memory.contains(k)) by {
            assert(m.args@[q].default == fill@[q]);
        }
    }
    // The arguments came off the stack the last first.
    let count = pos.len();
    let mut a: usize = 0;
    while a < count
        invariant
            a <= count,
            count == pos@.len(),
            count <= m.args@.len(),
            positional_view(pos@) == pv,
            forall|q: int|
                0 <= q < pos@.len() ==> globals.memory.contains((#[trigger] pos@[q]).0) && pos@[q].1
                    < n,
            n <= spans@.len(),
            fill@.len() == m.args@.len(),
            fill_live(fill@, &globals.memory),
            fill@ == with_positional(defaults(m@.args), pv, a as int),
            forall|x: int| 0 <= x < a ==> #[trigger] fits_param(m@, x, pv[pv.len() - 1 - x].0, globals),
        decreases count - a,
    {
        let (k, at_name) = pos[count - 1 - a];
        assert(pv[count - 1 - a] == (k, at_name as int));
        match give(&mut fill, m, a, k, spans[at_name], code, globals) {
            Ok(_) => {},
            Err(e) => {
                assert(!fits_param(m@, a as int, pv[pv.len() - 1 - a].0, globals));
                assert(first_positional_misfit(m@, pv, a as int, globals));
                assert(spans@[pv[pv.len() - 1 - a].1] == spans@[at_name as int]);
                return Err(e);
            },
        }
        a += 1;
    }
    let ghost after_pos = fill@;
    let mut b: usize = given.len();
    while b > 0
        invariant
            b <= given@.len(),
            named_view(given@) == gv,
            forall|q: int|
                0 <= q < given@.len() ==> globals.memory.contains((#[trigger] given@[q]).1)
                    && given@[q].0 < m.args@.len() && given@[q].2 < n,
            n <= spans@.len(),
            fill@.len() == m.args@.len(),
            fill_live(fill@, &globals.memory),
            fill@ == with_named(after_pos, gv, b as int),
            forall|x: int| b <= x < gv.len() ==> #[trigger] fits_param(m@, gv[x].0, gv[x].1, globals),
        decreases b,
    {
        b -= 1;
        let (p, k, at_name) = given[b];
        assert(gv[b as int] == (p as int, k, at_name as int));
        match give(&mut fill, m, p, k, spans[at_name], code, globals) {
            Ok(_) => {},
            Err(e) => {
                assert(!fits_param(m@, gv[b as int].0, gv[b as int].1, globals));
                assert(first_named_misfit(m@, gv, b as int, globals));
                assert(spans@[gv[b as int].2] == spans@[at_name as int]);
                return Err(e);
            },
        }
    }
    Ok(fill)
}

/// How many names a call reads: as many as the name set and the spans both
/// have.
pub open spec fn names_read(names: Seq<String>, spans: Seq<(usize, usize)>) -> int {
    if names.len() < spans.len() {
        names.len() as int
    } else {
        spans.len() as int
    }
}

/// Whether the state after a call is one that a call leaves: it can run
/// the next instruction and the shared state only grew.
pub open spec fn kept_by_call(ctx0: &Context, g0: &Globals, ctx1: &Context, g1: &Globals) -> bool {
    &&& ready(ctx1, g1)
    &&& g1.follows(g0)
    &&& g1.memory.extends(&g0.memory)
    &&& g1.memory.sealed_since(&g0.memory)
    &&& ctx1.vars@.len() == ctx0.vars@.len()
    &&& ctx1.group == ctx0.group
    &&& ctx1.id == ctx0.id
    &&& ctx1.stack == ctx0.stack
    &&& ctx1.block_stack == ctx0.block_stack
    &&& ctx1.returned == ctx0.returned
    &&& g1.arbitrary_ids == g0.arbitrary_ids
    &&& g1.objects == g0.objects
    &&& g1.triggers == g0.triggers
    &&& g1.printed == g0.printed
}

/// Whether `a` is the last place among the first `n` of `ids` where `v`
/// stands.
pub open spec fn last_at(ids: Seq<InstrNum>, n: int, a: int, v: int) -> bool {
    &&& 0 <= a < n
    &&& ids[a] == v
    &&& forall|x: int| a < x < n ==> #[trigger] ids[x] != v
}

/// Whether `v` stands nowhere among the first `n` of `ids`.
pub open spec fn absent(ids: Seq<InstrNum>, n: int, v: int) -> bool {
    forall|x: int| 0 <= x < n ==> #[trigger] ids[x] != v
}

/// Whether slot `k` of `g` was added since `g0` and holds a copy of what
/// slot `source` of `g0` holds.
pub open spec fn copied(g0: &Globals, source: ValueKey, g: &Globals, k: ValueKey) -> bool {
    g.memory.fresh(&g0.memory, k) && alike(&g0.memory, source, &g.memory, k)
}

/// Whether `k`, the value in place `b` of a variable, is what entering a
/// scope leaves there: the value that the variable `was` had in that place,
/// or a blank one above those.
pub open spec fn unassigned(
    was: Seq<ValueKey>,
    b: int,
    k: ValueKey,
    g0: &Globals,
    g1: &Globals,
    code: &Code,
) -> bool {
    if b < was.len() {
        k == was[b]
    } else {
        blank(&g0.memory, &g1.memory, k, code)
    }
}

/// How many of the parameters a call assigns: as many as the function has
/// argument variables for.
pub open spec fn assigned_count(f: &BytecodeFunc, fill: Seq<Option<ValueKey>>) -> int {
    if fill.len() < f.arg_ids@.len() {
        fill.len() as int
    } else {
        f.arg_ids@.len() as int
    }
}

/// How many of the captured slots a call hands on: as many as the function
/// has capture variables for.
pub open spec fn captured_count(f: &BytecodeFunc, capture: Seq<ValueKey>) -> int {
    if capture.len() < f.capture_ids@.len() {
        capture.len() as int
    } else {
        f.capture_ids@.len() as int
    }
}

/// Whether the variable `v` has a value once the scope of `f` is entered.
pub open spec fn has_slot(was: Seq<Seq<ValueKey>>, f: &BytecodeFunc, v: int) -> bool {
    0 <= v < was.len() && was[v].len() + occurrences(f.scoped_var_ids@, v) + occurrences(
        f.capture_ids@,
        v,
    ) > 0
}

/// Whether the function `f` can be entered from the variables `was`: each
/// argument variable that is assigned and each capture variable that is
/// handed a slot is a variable with a value.
pub open spec fn enterable(
    was: Seq<Seq<ValueKey>>,
    f: &BytecodeFunc,
    fill: Seq<Option<ValueKey>>,
    capture: Seq<ValueKey>,
) -> bool {
    &&& forall|a: int|
        0 <= a < assigned_count(f, fill) ==> has_slot(was, f, #[trigger] f.arg_ids@[a] as int)
    &&& forall|c: int|
        0 <= c < captured_count(f, capture) ==> has_slot(was, f, #[trigger] f.capture_ids@[c] as int)
}

/// Whether the variables `now` are the variables `was` with the function
/// `f` entered. Each variable has a new value for each time `f` declares it
/// and for each time `f` captures it, above the values that it had. The
/// innermost value of a capture variable is the slot that the macro
/// captured for it. The innermost value of an argument variable that is no
/// capture variable is a copy, in new slots, of what `fill` holds for its
/// parameter. Of a variable that stands twice the last place counts. Every
/// other value is as it was, or blank where it is new.
pub open spec fn entered(
    was: Seq<Seq<ValueKey>>,
    now: Seq<Seq<ValueKey>>,
    f: &BytecodeFunc,
    capture: Seq<ValueKey>,
    fill: Seq<Option<ValueKey>>,
    g0: &Globals,
    g1: &Globals,
    code: &Code,
) -> bool {
    let count = assigned_count(f, fill);
    let captures = captured_count(f, capture);
    &&& now.len() == was.len()
    &&& forall|v: int|
        0 <= v < was.len() ==> (#[trigger] now[v]).len() == was[v].len() + occurrences(
            f.scoped_var_ids@,
            v,
        ) + occurrences(f.capture_ids@, v)
    &&& forall|v: int, b: int|
        0 <= v < was.len() && 0 <= b < now[v].len() - 1 ==> unassigned(
            was[v],
            b,
            #[trigger] now[v][b],
            g0,
            g1,
            code,
        )
    &&& forall|v: int, c: int|
        0 <= v < was.len() && #[trigger] last_at(f.capture_ids@, captures, c, v) ==> now[v].len()
            > 0 && now[v].last() == capture[c]
    &&& forall|v: int, a: int|
        0 <= v < was.len() && absent(f.capture_ids@, captures, v) && #[trigger] last_at(
            f.arg_ids@,
            count,
            a,
            v,
        ) ==> now[v].len() > 0 && fill[a] is Some && copied(g0, fill[a]->0, g1, now[v].last())
    &&& forall|v: int|
        0 <= v < was.len() && absent(f.capture_ids@, captures, v) && absent(f.arg_ids@, count, v)
            && (#[trigger] now[v]).len() > 0 ==> unassigned(
            was[v],
            now[v].len() - 1,
            now[v].last(),
            g0,
            g1,
            code,
        )
}

/// Whether the variables `now` are the variables `was` with the first `n`
/// argument variables `ids` assigned: the innermost value of each is a copy,
/// in new slots, of what `fill` holds for its parameter.
pub open spec fn args_bound(
    was: Seq<Seq<ValueKey>>,
    now: Seq<Seq<ValueKey>>,
    ids: Seq<InstrNum>,
    n: int,
    fill: Seq<Option<ValueKey>>,
    g0: &Globals,
    g: &Globals,
) -> bool {
    &&& now.len() == was.len()
    &&& forall|v: int| 0 <= v < was.len() ==> (#[trigger] now[v]).len() == was[v].len()
    &&& forall|v: int, b: int|
        0 <= v < was.len() && 0 <= b < was[v].len() - 1 ==> (#[trigger] now[v][b]) == was[v][b]
    &&& forall|v: int|
        0 <= v < was.len() && was[v].len() > 0 && absent(ids, n, v) ==> (#[trigger] now[v]).last()
            == was[v].last()
    &&& forall|v: int, a: int|
        0 <= v < was.len() && #[trigger] last_at(ids, n, a, v) ==> now[v].len() > 0 && fill[a] is Some
            && copied(g0, fill[a]->0, g, now[v].last())
    &&& forall|x: int|
        0 <= x < n ==> (#[trigger] ids[x]) < was.len() && was[ids[x] as int].len() > 0
}

/// Whether the variables `now` are the variables `was` with the first `n`
/// capture variables `ids` handed their slots: the innermost value of each is
/// the slot that the macro captured for it.
pub open spec fn captures_bound(
    was: Seq<Seq<ValueKey>>,
    now: Seq<Seq<ValueKey>>,
    ids: Seq<InstrNum>,
    n: int,
    capture: Seq<ValueKey>,
) -> bool {
    &&& now.len() == was.len()
    &&& forall|v: int| 0 <= v < was.len() ==> (#[trigger] now[v]).len() == was[v].len()
    &&& forall|v: int, b: int|
        0 <= v < was.len() && 0 <= b < was[v].len() - 1 ==> (#[trigger] now[v][b]) == was[v][b]
    &&& forall|v: int|
        0 <= v < was.len() && was[v].len() > 0 && absent(ids, n, v) ==> (#[trigger] now[v]).last()
            == was[v].last()
    &&& forall|v: int, c: int|
        0 <= v < was.len() && #[trigger] last_at(ids, n, c, v) ==> now[v].len() > 0
            && now[v].last() == capture[c]
    &&& forall|x: int|
        0 <= x < n ==> (#[trigger] ids[x]) < was.len() && was[ids[x] as int].len() > 0
}

/// Assigns each of the first `count` argument variables of `f` a copy, in
/// new slots, of what `fill` holds for its parameter.
#[verifier::loop_isolation(false)]
fn bind_arguments(
    ctx: &mut Context,
    globals: &mut Globals,
    f: &BytecodeFunc,
    fill: &Vec<Option<ValueKey>>,
    func: usize,
    index: usize,
) -> (r: Result<(), RuntimeError>)
    requires
        ready(old(ctx), old(globals)),
        fill_live(fill@, &old(globals).memory),
        forall|q: int| 0 <= q < fill@.len() ==> (#[trigger] fill@[q]) is Some,
    ensures
        kept_by_call(old(ctx), old(globals), final(ctx), final(globals)),
        final(ctx).pos == old(ctx).pos,
        final(globals).calls == old(globals).calls,
        final(globals).call_counter == old(globals).call_counter,
        match r {
            Ok(_) => args_bound(
                old(ctx).vars_view(),
                final(ctx).vars_view(),
                f.arg_ids@,
                assigned_count(f, fill@),
                fill@,
                old(globals),
                final(globals),
            ),
            Err(e) => match e@ {
                RuntimeErrorView::MalformedBytecode { func: ef, index: ei } => ef == func && ei
                    == index && exists|a: int|
                    0 <= a < assigned_count(f, fill@) && !(#[trigger] f.arg_ids@[a] < old(ctx).vars@.len() && old(ctx).vars_view()[f.arg_ids@[a] as int].len() > 0),
                RuntimeErrorView::MemoryExhausted => final(globals).memory.slots().len()
                    >= crate::memory::ARENA_LIMIT,
                _ => false,
            },
        },
{
    let ghost g0 = *globals;
    let ghost was = ctx.vars_view();
    let ghost ids = f.arg_ids@;
    proof {
        lemma_follows_self(globals);
    }
    let count = if fill.len() < f.arg_ids.len() {
        fill.len()
    } else {
        f.arg_ids.len()
    };
    let mut a: usize = 0;
    while a < count
        invariant
            a <= count,
            count == assigned_count(f, fill@),
            kept_by_call(old(ctx), &g0, ctx, globals),
            ctx.pos == old(ctx).pos,
            globals.calls == g0.calls,
            globals.call_counter == g0.call_counter,
            args_bound(was, ctx.vars_view(), ids, a as int, fill@, &g0, globals),
        decreases count - a,
    {
        let id = f.arg_ids[a];
        if !ctx.has_var(id) {
            proof {
                if (id as int) < was.len() {
                    assert(ctx.vars_view()[id as int].len() == was[id as int].len());
                }
            }
            return Err(malformed(func, index));
        }
        let source = fill[a].unwrap();
        assert(g0.memory.contains(source));
        let ghost g2 = *globals;
        let ghost c2 = *ctx;
        let ghost before = ctx.vars_view();
        let copy = match globals.key_deep_clone(source) {
            Some(c) => c,
            None => {
                proof {
                    lemma_live_covers(ctx, &g2.memory, &globals.memory);
                    lemma_follows_chain(&g0, &g2, globals);
                    assert(globals.memory.extends(&g0.memory));
                }
                return Err(RuntimeError::MemoryExhausted);
            },
        };
        ctx.replace_var(id, copy);
        proof {
            lemma_live_covers(&c2, &g2.memory, &globals.memory);
            lemma_follows_chain(&g0, &g2, globals);
            crate::memory::lemma_alike_source_grows(
                &g0.memory,
                &g2.memory,
                source,
                &globals.memory,
                copy,
            );
            let now = ctx.vars_view();
            assert(now =~= before.update(
                id as int,
                before[id as int].update(before[id as int].len() - 1, copy),
            ));
            assert forall|v: int, x: int| 0 <= v < was.len() && #[trigger] last_at(
                ids,
                a + 1,
                x,
                v,
            ) implies now[v].len() > 0 && fill@[x] is Some && copied(
                &g0,
                fill@[x]->0,
                globals,
                now[v].last(),
            ) by {
                if v == id as int {
                    if x < a {
                        assert(ids[a as int] != v);
                    }
                } else {
                    assert(last_at(ids, a as int, x, v));
                    crate::memory::lemma_alike_copy_grows(
                        &g0.memory,
                        fill@[x]->0,
                        &g2.memory,
                        &globals.memory,
                        before[v].last(),
                    );
                }
            }
            assert forall|v: int|
                0 <= v < was.len() && was[v].len() > 0 && absent(ids, a + 1, v) implies (#[trigger] now[v]).last()
                == was[v].last() by {
                assert(ids[a as int] != v);
                assert(absent(ids, a as int, v));
                assert(before[v].last() == was[v].last());
            }
        }
        a += 1;
    }
    Ok(())
}

/// Makes the innermost value of each of the first capture variables of `f`
/// the slot that the macro captured for it.
#[verifier::loop_isolation(false)]
fn bind_captures(
    ctx: &mut Context,
    globals: &Globals,
    f: &BytecodeFunc,
    capture: &Vec<ValueKey>,
    func: usize,
    index: usize,
) -> (r: Result<(), RuntimeError>)
    requires
        ready(old(ctx), globals),
        forall|q: int| 0 <= q < capture@.len() ==> globals.memory.contains(#[trigger] capture@[q]),
    ensures
        kept_by_call(old(ctx), globals, final(ctx), globals),
        final(ctx).pos == old(ctx).pos,
        match r {
            Ok(_) => captures_bound(
                old(ctx).vars_view(),
                final(ctx).vars_view(),
                f.capture_ids@,
                captured_count(f, capture@),
                capture@,
            ),
            Err(e) => e@ == (RuntimeErrorView::MalformedBytecode { func, index }) && exists|c: int|
                0 <= c < captured_count(f, capture@) && !(#[trigger] f.capture_ids@[c] < old(ctx).vars@.len() && old(ctx).vars_view()[f.capture_ids@[c] as int].len() > 0),
        },
{
    let ghost was = ctx.vars_view();
    let ghost ids = f.capture_ids@;
    proof {
        lemma_follows_self(globals);
    }
    let captures = if capture.len() < f.capture_ids.len() {
        capture.len()
    } else {
        f.capture_ids.len()
    };
    let mut c: usize = 0;
    while c < captures
        invariant
            c <= captures,
            captures == captured_count(f, capture@),
            kept_by_call(old(ctx), globals, ctx, globals),
            ctx.pos == old(ctx).pos,
            captures_bound(was, ctx.vars_view(), ids, c as int, capture@),
        decreases captures - c,
    {
        let id = f.capture_ids[c];
        if !ctx.has_var(id) {
            proof {
                if (id as int) < was.len() {
                    assert(ctx.vars_view()[id as int].len() == was[id as int].len());
                }
            }
            return Err(malformed(func, index));
        }
        let ghost before = ctx.vars_view();
        ctx.replace_var(id, capture[c]);
        proof {
            let now = ctx.vars_view();
            assert(now =~= before.update(
                id as int,
                before[id as int].update(before[id as int].len() - 1, capture@[c as int]),
            ));
            assert forall|v: int, x: int| 0 <= v < was.len() && #[trigger] last_at(
                ids,
                c + 1,
                x,
                v,
            ) implies now[v].len() > 0 && now[v].last() == capture@[x] by {
                if v == id as int {
                    if x < c {
                        assert(ids[c as int] != v);
                    }
                } else {
                    assert(last_at(ids, c as int, x, v));
                }
            }
            assert forall|v: int|
                0 <= v < was.len() && was[v].len() > 0 && absent(ids, c + 1, v) implies (#[trigger] now[v]).last()
                == was[v].last() by {
                assert(ids[c as int] != v);
                assert(absent(ids, c as int, v));
                assert(before[v].last() == was[v].last());
            }
        }
        c += 1;
    }
    Ok(())
}

/// Whether the error `e` is one that entering a macro can give, and has its
/// cause: a parameter holds nothing, and it is the first that does; the
/// function is not there or cannot be entered; or the arena or the call
/// numbers ran out.
pub open spec fn entering_fails(
    e: RuntimeErrorView,
    ctx0: &Context,
    g0: &Globals,
    g1: &Globals,
    code: &Code,
    m: MacroView,
    fill: Seq<Option<ValueKey>>,
    func: usize,
    index: usize,
) -> bool {
    match e {
        RuntimeErrorView::ArgumentNotSatisfied { arg_name, call_area, arg_area } => exists|q: int|
            0 <= q < fill.len() && (#[trigger] fill[q]) is None && (forall|x: int|
                0 <= x < q ==> (#[trigger] fill[x]) is Some) && arg_name == m.args[q].name
                && call_area == code.area_of(func, index) && arg_area == m.args[q].area,
        RuntimeErrorView::MalformedBytecode { func: ef, index: ei } => ef == func && ei == index && (
        m.func_id >= code.bytecode_funcs@.len() || !enterable(
            ctx0.vars_view(),
            &code.bytecode_funcs@[m.func_id as int],
            fill,
            m.capture,
        )),
        RuntimeErrorView::MemoryExhausted => g1.memory.slots().len() >= crate::memory::ARENA_LIMIT
            || g0.call_counter.0 == usize::MAX,
        _ => false,
    }
}

/// Enters the function of the macro: gives its variables and the variables
/// it captures a new innermost value, makes the innermost value of each
/// argument variable a copy of what `fill` holds for its parameter, lets the
/// capture variables stand for the slots that the macro captured, and pushes
/// the frame of a new call. A parameter for which `fill` holds nothing is an
/// error.
#[verifier::loop_isolation(false)]
pub fn enter_macro(
    ctx: &mut Context,
    globals: &mut Globals,
    code: &Code,
    m: &Macro,
    fill: &Vec<Option<ValueKey>>,
    func: usize,
    index: usize,
) -> (r: Result<Flow, RuntimeError>)
    requires
        ready(old(ctx), old(globals)),
        fill@.len() == m.args@.len(),
        fill_live(fill@, &old(globals).memory),
        forall|q: int| 0 <= q < m.capture@.len() ==> old(globals).memory.contains(
            #[trigger] m.capture@[q],
        ),
    ensures
        kept_by_call(old(ctx), old(globals), final(ctx), final(globals)),
        (exists|q: int| 0 <= q < fill@.len() && (#[trigger] fill@[q]) is None) ==> (r matches Err(e)
            && e@ is ArgumentNotSatisfied),
        match r {
            Ok(f) => f is Called && m.func_id < code.bytecode_funcs@.len() && old(globals).call_counter.0 < usize::MAX && final(globals).call_counter == CallId(
                (old(globals).call_counter.0 + 1) as usize,
            ) && final(globals).calls@ == old(globals).calls@.insert(
                (old(globals).call_counter.0 + 1) as usize,
            ) && final(ctx).pos@ == old(ctx).pos@.push(
                (m.func_id, 0usize, final(globals).call_counter),
            ) && (forall|q: int| 0 <= q < fill@.len() ==> (#[trigger] fill@[q]) is Some)
                && enterable(
                old(ctx).vars_view(),
                &code.bytecode_funcs@[m.func_id as int],
                fill@,
                m.capture@,
            ) && entered(
                old(ctx).vars_view(),
                final(ctx).vars_view(),
                &code.bytecode_funcs@[m.func_id as int],
                m.capture@,
                fill@,
                old(globals),
                final(globals),
                code,
            ),
            Err(e) => final(ctx).pos == old(ctx).pos && final(globals).calls == old(globals).calls
                && final(globals).call_counter == old(globals).call_counter && entering_fails(
                e@,
                old(ctx),
                old(globals),
                final(globals),
                code,
                m@,
                fill@,
                func,
                index,
            ),
        },
{
    let area = code.area_at(func, index);
    proof {
        lemma_follows_self(globals);
    }
    let mut i: usize = 0;
    while i < fill.len()
        invariant
            i <= fill@.len(),
            fill@.len() == m.args@.len(),
            forall|q: int| 0 <= q < i ==> (#[trigger] fill@[q]) is Some,
        decreases fill.len() - i,
    {
        if fill[i].is_none() {
            assert(m@.args[i as int] == m.args@[i as int]@);
            return Err(
                RuntimeError::ArgumentNotSatisfied {
                    arg_name: m.args[i].name.clone(),
                    call_area: area,
                    arg_area: m.args[i].area,
                },
            );
        }
        i += 1;
    }
    if m.func_id >= code.bytecode_funcs.len() {
        return Err(malformed(func, index));
    }
    if globals.call_counter.0 == usize::MAX {
        return Err(RuntimeError::MemoryExhausted);
    }
    let f = &code.bytecode_funcs[m.func_id];
    let ghost g0 = *globals;
    let ghost v0 = ctx.vars_view();
    if !ctx.push_vars(f.scoped_var_ids.as_slice(), code, globals) {
        return Err(RuntimeError::MemoryExhausted);
    }
    let ghost g1 = *globals;
    let ghost v1 = ctx.vars_view();
    if !ctx.push_vars(f.capture_ids.as_slice(), code, globals) {
        proof {
            lemma_follows_chain(&g0, &g1, globals);
        }
        return Err(RuntimeError::MemoryExhausted);
    }
    let ghost g2 = *globals;
    let ghost v2 = ctx.vars_view();
    proof {
        lemma_follows_chain(&g0, &g1, globals);
    }
    match bind_arguments(ctx, globals, f, fill, func, index) {
        Ok(_) => {},
        Err(e) => {
            proof {
                lemma_follows_chain(&g0, &g2, globals);
                if e@ is MalformedBytecode {
                    let a = choose|a: int|
                        0 <= a < assigned_count(f, fill@) && !(#[trigger] f.arg_ids@[a] < v2.len()
                            && v2[f.arg_ids@[a] as int].len() > 0);
                    let v = f.arg_ids@[a] as int;
                    if v < v0.len() {
                        assert(v2[v].len() == v1[v].len() + occurrences(f.capture_ids@, v));
                        assert(v1[v].len() == v0[v].len() + occurrences(f.scoped_var_ids@, v));
                    }
                    assert(!has_slot(v0, f, f.arg_ids@[a] as int));
                }
            }
            return Err(e);
        },
    }
    let ghost g3 = *globals;
    let ghost v3 = ctx.vars_view();
    proof {
        lemma_follows_chain(&g0, &g2, globals);
        assert forall|q: int| 0 <= q < m.capture@.len() implies globals.memory.contains(
            #[trigger] m.capture@[q],
        ) by {
            assert(g0.memory.contains(m.capture@[q]));
        }
    }
    match bind_captures(ctx, globals, f, &m.capture, func, index) {
        Ok(_) => {},
        Err(e) => {
            proof {
                let c = choose|c: int|
                    0 <= c < captured_count(f, m.capture@) && !(#[trigger] f.capture_ids@[c]
                        < v3.len() && v3[f.capture_ids@[c] as int].len() > 0);
                let v = f.capture_ids@[c] as int;
                if v < v0.len() {
                    assert(v3[v].len() == v2[v].len());
                    assert(v2[v].len() == v1[v].len() + occurrences(f.capture_ids@, v));
                    assert(v1[v].len() == v0[v].len() + occurrences(f.scoped_var_ids@, v));
                }
                assert(!has_slot(v0, f, f.capture_ids@[c] as int));
            }
            return Err(e);
        },
    }
    let ghost v4 = ctx.vars_view();
    proof {
        lemma_entered(v0, v1, v2, v3, v4, f, m.capture@, fill@, &g0, &g1, &g2, &g3, code);
    }
    let next = CallId(globals.call_counter.0 + 1);
    globals.call_counter = next;
    globals.calls.insert(next);
    let ghost before = *ctx;
    ctx.pos.push((m.func_id, 0, next));
    assert(ctx.live(&globals.memory)) by {
        assert(ctx.stack == before.stack && ctx.vars == before.vars && ctx.block_stack
            == before.block_stack);
    }
    assert(ctx.vars_view() == v4);
    Ok(Flow::Called)
}

/// The four steps of entering a function make up what [`entered`] states.
proof fn lemma_entered(
    v0: Seq<Seq<ValueKey>>,
    v1: Seq<Seq<ValueKey>>,
    v2: Seq<Seq<ValueKey>>,
    v3: Seq<Seq<ValueKey>>,
    v4: Seq<Seq<ValueKey>>,
    f: &BytecodeFunc,
    capture: Seq<ValueKey>,
    fill: Seq<Option<ValueKey>>,
    g0: &Globals,
    g1: &Globals,
    g2: &Globals,
    g3: &Globals,
    code: &Code,
)
    requires
        g1.memory.extends(&g0.memory),
        g2.memory.extends(&g1.memory),
        g3.memory.extends(&g2.memory),
        scope_entered(v0, v1, f.scoped_var_ids@, &g0.memory, &g1.memory, code),
        scope_entered(v1, v2, f.capture_ids@, &g1.memory, &g2.memory, code),
        args_bound(v2, v3, f.arg_ids@, assigned_count(f, fill), fill, g2, g3),
        captures_bound(v3, v4, f.capture_ids@, captured_count(f, capture), capture),
        g0.wf(),
        g2.wf(),
        fill_live(fill, &g0.memory),
    ensures
        enterable(v0, f, fill, capture),
        entered(v0, v4, f, capture, fill, g0, g3, code),
{
    let count = assigned_count(f, fill);
    let captures = captured_count(f, capture);
    assert forall|v: int| 0 <= v < v0.len() implies (#[trigger] v4[v]).len() == v0[v].len()
        + occurrences(f.scoped_var_ids@, v) + occurrences(f.capture_ids@, v) by {
        assert(v4[v].len() == v3[v].len());
        assert(v3[v].len() == v2[v].len());
        assert(v2[v].len() == v1[v].len() + occurrences(f.capture_ids@, v));
        assert(v1[v].len() == v0[v].len() + occurrences(f.scoped_var_ids@, v));
    }
    assert forall|v: int, b: int| 0 <= v < v0.len() && 0 <= b < v4[v].len() implies (unassigned(
        v0[v],
        b,
        #[trigger] v2[v][b],
        g0,
        g3,
        code,
    )) by {
        assert(v4[v].len() == v3[v].len());
        assert(v3[v].len() == v2[v].len());
        assert(v2[v].len() == v1[v].len() + occurrences(f.capture_ids@, v));
        if b < v1[v].len() {
            assert(v2[v][b] == v1[v][b]);
            if b < v0[v].len() {
                assert(v1[v][b] == v0[v][b]);
            } else {
                assert(blank(&g0.memory, &g1.memory, v1[v][b], code));
            }
        } else {
            assert(blank(&g1.memory, &g2.memory, v2[v][b], code));
        }
    }
    assert forall|v: int, b: int| 0 <= v < v0.len() && 0 <= b < v4[v].len() - 1 implies unassigned(
        v0[v],
        b,
        #[trigger] v4[v][b],
        g0,
        g3,
        code,
    ) by {
        assert(v4[v].len() == v3[v].len());
        assert(v3[v].len() == v2[v].len());
        assert(v4[v][b] == v3[v][b]);
        assert(v3[v][b] == v2[v][b]);
    }
    assert forall|v: int, c: int|
        0 <= v < v0.len() && #[trigger] last_at(f.capture_ids@, captures, c, v) implies v4[v].len()
        > 0 && v4[v].last() == capture[c] by {}
    assert forall|v: int, a: int|
        0 <= v < v0.len() && absent(f.capture_ids@, captures, v) && #[trigger] last_at(
            f.arg_ids@,
            count,
            a,
            v,
        ) implies v4[v].len() > 0 && fill[a] is Some && copied(g0, fill[a]->0, g3, v4[v].last()) by {
        assert(v3[v].len() > 0 && copied(g2, fill[a]->0, g3, v3[v].last()));
        assert(v4[v].len() == v3[v].len());
        assert(v4[v].last() == v3[v].last());
        assert(g0.memory.contains(fill[a]->0));
        crate::memory::lemma_alike_source_grows(
            &g0.memory,
            &g2.memory,
            fill[a]->0,
            &g3.memory,
            v3[v].last(),
        );
    }
    assert forall|v: int|
        0 <= v < v0.len() && absent(f.capture_ids@, captures, v) && absent(f.arg_ids@, count, v)
            && (#[trigger] v4[v]).len() > 0 implies unassigned(
        v0[v],
        v4[v].len() - 1,
        v4[v].last(),
        g0,
        g3,
        code,
    ) by {
        assert(v4[v].len() == v3[v].len());
        assert(v3[v].len() == v2[v].len());
        assert(v4[v].last() == v3[v].last());
        assert(v3[v].last() == v2[v].last());
        assert(unassigned(v0[v], v2[v].len() - 1, v2[v][v2[v].len() - 1], g0, g3, code));
    }
    assert forall|a: int| 0 <= a < count implies has_slot(
        v0,
        f,
        #[trigger] f.arg_ids@[a] as int,
    ) by {
        let v = f.arg_ids@[a] as int;
        assert(v2[v].len() > 0);
        assert(v2[v].len() == v1[v].len() + occurrences(f.capture_ids@, v));
        assert(v1[v].len() == v0[v].len() + occurrences(f.scoped_var_ids@, v));
    }
    assert forall|c: int| 0 <= c < captures implies has_slot(
        v0,
        f,
        #[trigger] f.capture_ids@[c] as int,
    ) by {
        let v = f.capture_ids@[c] as int;
        assert(v3[v].len() > 0);
        assert(v3[v].len() == v2[v].len());
        assert(v2[v].len() == v1[v].len() + occurrences(f.capture_ids@, v));
        assert(v1[v].len() == v0[v].len() + occurrences(f.scoped_var_ids@, v));
    }
}

/// What a call of the macro `m`, the value `base`, does where the
/// arguments are read as `names` and `spans` tell, off `below`, the stack
/// under the macro. It succeeds where the arguments can be read, every
/// parameter gets a value and the function can be entered, unless the arena
/// or the call numbers run out; the variables are then those of the function
/// entered with what the parameters hold. Each error has its cause.
pub open spec fn called(
    m: MacroView,
    base: StoredValueView,
    names: Seq<Seq<char>>,
    spans: Seq<(usize, usize)>,
    below: Seq<ValueKey>,
    n: int,
    ctx0: &Context,
    ctx1: &Context,
    g0: &Globals,
    g1: &Globals,
    code: &Code,
    func: usize,
    index: usize,
    r: Result<Flow, RuntimeError>,
) -> bool {
    let fill = filled(m, names, below, n);
    match r {
        Ok(f) => arguments_read(m, names, below, n, g0) && (forall|q: int|
            0 <= q < fill.len() ==> (#[trigger] fill[q]) is Some) && ctx1.stack@ == below.take(
            below.len() - n,
        ) && m.func_id < code.bytecode_funcs@.len() && enterable(
            ctx0.vars_view(),
            &code.bytecode_funcs@[m.func_id as int],
            fill,
            m.capture,
        ) && entered(
            ctx0.vars_view(),
            ctx1.vars_view(),
            &code.bytecode_funcs@[m.func_id as int],
            m.capture,
            fill,
            g0,
            g1,
            code,
        ),
        Err(e) => reading_fails(e@, m, base, names, spans, below, n, g0, code, func, index) || (
        arguments_read(m, names, below, n, g0) && entering_fails(
            e@,
            ctx0,
            g0,
            g1,
            code,
            m,
            fill,
            func,
            index,
        )),
    }
}

/// What [`run_call`] does to the context and the shared state, and how the
/// context goes on.
pub open spec fn call_effect(
    id: InstrNum,
    ctx0: &Context,
    ctx1: &Context,
    g0: &Globals,
    g1: &Globals,
    code: &Code,
    func: usize,
    index: usize,
    r: Result<Flow, RuntimeError>,
) -> bool {
    &&& (ready(ctx1, g1))
    &&& (g1.follows(g0))
    &&& (g1.memory.extends(&g0.memory))
    &&& (g1.memory.sealed_since(&g0.memory))
    &&& (ctx1.vars@.len() == ctx0.vars@.len())
    &&& (ctx1.group == ctx0.group)
    &&& (ctx1.id == ctx0.id)
    &&& (ctx1.returned == ctx0.returned)
    &&& (ctx1.block_stack == ctx0.block_stack)
    &&& (g1.arbitrary_ids == g0.arbitrary_ids)
    &&& (g1.objects == g0.objects)
    &&& (g1.triggers == g0.triggers)
    &&& (g1.printed == g0.printed)
    &&& (ctx1.stack@.len() <= ctx0.stack@.len())
    &&& (ctx1.stack@ == ctx0.stack@.take(ctx1.stack@.len() as int))
    &&& (ctx0.stack@.len() == 0 ==> fails_malformed(r, func, index))
    &&& (ctx0.stack@.len() > 0 && !(at(g0, ctx0.stack@.last()).value is Macro)
            ==> fails(
            r,
            RuntimeErrorView::CannotCall {
                base: at(g0, ctx0.stack@.last()),
                area: code.area_of(func, index),
            },
        ))
    &&& (ctx0.stack@.len() > 0 && at(g0, ctx0.stack@.last()).value is Macro && (id
        >= code.name_sets@.len() || forall|i: int| !code.spans_at(func, index, i))
        ==> fails_malformed(r, func, index))
    &&& (forall|i: int|
        ctx0.stack@.len() > 0 && id < code.name_sets@.len() && #[trigger] code.spans_at(
            func,
            index,
            i,
        ) ==> (at(g0, ctx0.stack@.last()).value matches ValueView::Macro(mv) ==> called(
            mv,
            at(g0, ctx0.stack@.last()),
            names_view(code.name_sets@[id as int]@),
            code.macro_arg_spans@[i].spans@,
            ctx0.stack@.drop_last(),
            names_read(code.name_sets@[id as int]@, code.macro_arg_spans@[i].spans@),
            ctx0,
            ctx1,
            g0,
            g1,
            code,
            func,
            index,
            r,
        )))
    &&& (match r {
            Ok(f) => f is Called && ctx0.stack@.len() > 0 && (at(
                g0,
                ctx0.stack@.last(),
            ).value matches ValueView::Macro(mv) && ctx1.pos@ == ctx0.pos@.push(
                (mv.func_id, 0usize, g1.call_counter),
            )) && g1.call_counter == CallId(
                (g0.call_counter.0 + 1) as usize,
            ) && g1.calls@ == g0.calls@.insert(
                (g0.call_counter.0 + 1) as usize,
            ),
            Err(e) => ctx1.pos == ctx0.pos && g1.calls == g0.calls && g1.call_counter
                == g0.call_counter,
        })
}

/// Runs `Call`: takes the macro off the stack, then its arguments, and
/// enters its function.
pub fn run_call(
    id: InstrNum,
    ctx: &mut Context,
    globals: &mut Globals,
    code: &Code,
    func: usize,
    index: usize,
) -> (r: Result<Flow, RuntimeError>)
    requires
        ready(old(ctx), old(globals)),
    ensures
        out_of_room(r, final(globals)),
        nothing_pushed(r, old(ctx), final(ctx)),
        call_effect(id, old(ctx), final(ctx), old(globals), final(globals), code, func, index, r),
{
    let area = code.area_at(func, index);
    assert(old(ctx).stack@.take(old(ctx).stack@.len() as int) =~= old(ctx).stack@);
    let kbase = match ctx.pop_key() {
        Some(k) => k,
        None => {
            return Err(malformed(func, index));
        },
    };
    let ghost below = ctx.stack@;
    assert(below =~= old(ctx).stack@.drop_last());
    assert(below =~= old(ctx).stack@.take(below.len() as int));
    assert(ctx.live(&globals.memory));
    assert(globals.memory.contains(kbase));
    assert(globals.memory.admits(globals.memory.value(kbase)));
    let base = globals.memory.get(kbase).copy();
    let m = match &base.value {
        Value::Macro(m) => m,
        _ => {
            return Err(RuntimeError::CannotCall { base, area });
        },
    };
    if (id as usize) >= code.name_sets.len() {
        return Err(malformed(func, index));
    }
    let at_spans = match code.arg_spans(func, index) {
        Some(i) => i,
        None => {
            return Err(malformed(func, index));
        },
    };
    let spans = &code.macro_arg_spans[at_spans].spans;
    let names = &code.name_sets[id as usize];
    proof {
        let mv = base@.value->Macro_0;
        assert forall|q: int| 0 <= q < m.args@.len() implies ((#[trigger] m.args@[q]).default matches Some(
            k,
        ) ==> globals.memory.contains(k)) by {
            if m.args@[q].default is Some {
                assert(mv.args[q] == m.args@[q]@);
                let w = crate::display::lemma_default_is_part(mv.args, q);
                assert(base@.value.parts()[w] == m.args@[q].default->0);
            }
        }
        assert forall|q: int| 0 <= q < m.capture@.len() implies globals.memory.contains(
            #[trigger] m.capture@[q],
        ) by {
            assert(base@.value.captured()[q] == m.capture@[q]);
        }
        assert forall|i: int| #[trigger] code.spans_at(func, index, i) implies i == at_spans by {
            code.lemma_spans_at_one(func, index, i, at_spans as int);
        }
    }
    let fill = match read_arguments(ctx, globals, code, m, &base, names, spans, func, index) {
        Ok(f) => f,
        Err(e) => {
            assert(ctx.stack@ =~= old(ctx).stack@.take(ctx.stack@.len() as int));
            return Err(e);
        },
    };
    let ghost n = names_read(names@, spans@);
    assert(ctx.stack@ =~= old(ctx).stack@.take(ctx.stack@.len() as int));
    assert(ctx.stack@ =~= below.take(below.len() - n));
    enter_macro(ctx, globals, code, m, &fill, func, index)
}

} // verus!
