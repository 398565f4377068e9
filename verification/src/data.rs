//! The instructions that build and take apart values: variables, arrays,
//! dictionaries, maybes, patterns, and the blocks of `for` and `try`.

use vstd::prelude::*;
use crate::bytecode::{Code, InstrNum};
use crate::contexts::{lemma_live_covers, Context};
use crate::error::{RuntimeError, RuntimeErrorView};
use crate::flow::{
    at, dropped_top, fails, fails_malformed, goes_on, kept, lemma_follows_chain, malformed,
    nothing_pushed, out_of_room, ready, replaced_top, Flow,
};
use crate::globals::Globals;
use crate::machine::push_value;
use crate::memory::{alike, Memory};
use crate::value::{Value, ValueKey, ValueView};

verus! {

/// Takes the top `n` keys off the stack and gives them, the lowest first.
/// Takes none where the stack holds fewer.
pub fn pop_keys(ctx: &mut Context, n: usize) -> (r: Option<Vec<ValueKey>>)
    ensures
        final(ctx).same_but_stack(old(ctx)),
        match r {
            Some(keys) => dropped_top(old(ctx), final(ctx), n as int) && keys@ == old(ctx).stack@.skip(old(ctx).stack@.len() - n),
            None => old(ctx).stack@.len() < n && final(ctx).stack@ == old(ctx).stack@,
        },
        forall|m: Memory|
            old(ctx).live(&m) ==> #[trigger] final(ctx).live(&m) && (r matches Some(keys)
                ==> forall|i: int| 0 <= i < keys@.len() ==> m.contains(#[trigger] keys@[i])),
{
    if ctx.stack.len() < n {
        return None;
    }
    let at = ctx.stack.len() - n;
    let ghost s0 = ctx.stack@;
    let keys = ctx.stack.split_off(at);
    proof {
        assert(ctx.stack@ =~= s0.take(at as int));
        assert(keys@ =~= s0.skip(at as int));
        assert forall|m: Memory| old(ctx).live(&m) implies #[trigger] ctx.live(&m) && (forall|
            i: int,
        | 0 <= i < keys@.len() ==> m.contains(#[trigger] keys@[i])) by {
            assert forall|i: int| 0 <= i < ctx.stack@.len() implies m.contains(
                #[trigger] ctx.stack@[i],
            ) by {
                assert(ctx.stack@[i] == s0[i]);
            }
            assert forall|i: int| 0 <= i < keys@.len() implies m.contains(#[trigger] keys@[i]) by {
                assert(keys@[i] == s0[at + i]);
            }
        }
    }
    Some(keys)
}

/// Whether the state `g1` came out of `g0` by storing values only, each
/// made of slots that `g0` did not have: nothing that was added shares a slot
/// with what was there.
pub open spec fn only_stored(g0: &Globals, g1: &Globals) -> bool {
    &&& g1.memory.extends(&g0.memory)
    &&& g1.memory.sealed_since(&g0.memory)
    &&& g1.arbitrary_ids == g0.arbitrary_ids
    &&& g1.objects == g0.objects
    &&& g1.triggers == g0.triggers
    &&& g1.printed == g0.printed
    &&& g1.calls == g0.calls
    &&& g1.call_counter == g0.call_counter
}

/// What [`run_load_var`] does to the context and the shared state, and how the
/// context goes on.
pub open spec fn load_var_effect(
    id: InstrNum,
    ctx0: &Context,
    ctx1: &Context,
    g0: &Globals,
    func: usize,
    index: usize,
    r: Result<Flow, RuntimeError>,
) -> bool {
    &&& (kept(ctx0, g0, ctx1, g0))
    &&& (ctx1.same_but_stack(ctx0))
    &&& (if id < ctx0.vars@.len() && ctx0.vars@[id as int]@.len() > 0 {
            goes_on(r) && ctx1.stack@ == ctx0.stack@.push(
                ctx0.vars@[id as int]@.last(),
            )
        } else {
            fails_malformed(r, func, index) && ctx1.stack@ == ctx0.stack@
        })
}

/// Runs `LoadVar`: puts the key of the variable on the stack. The stack and
/// the variable then share the slot.
pub fn run_load_var(id: InstrNum, ctx: &mut Context, globals: &Globals, func: usize, index: usize) -> (r:
    Result<Flow, RuntimeError>)
    requires
        ready(old(ctx), globals),
    ensures
        out_of_room(r, globals),
        nothing_pushed(r, old(ctx), final(ctx)),
        load_var_effect(id, old(ctx), final(ctx), globals, func, index, r),
{
    if !ctx.has_var(id) {
        return Err(malformed(func, index));
    }
    let k = ctx.get_var(id);
    assert(globals.memory.contains(k)) by {
        assert(k == ctx.vars@[id as int]@[ctx.vars@[id as int]@.len() - 1]);
    }
    ctx.push_key(k);
    Ok(Flow::Next)
}

/// What [`run_set_var`] does to the context and the shared state, and how the
/// context goes on.
pub open spec fn set_var_effect(
    id: InstrNum,
    ctx0: &Context,
    ctx1: &Context,
    g0: &Globals,
    g1: &Globals,
    func: usize,
    index: usize,
    r: Result<Flow, RuntimeError>,
) -> bool {
    &&& (kept(ctx0, g0, ctx1, g1))
    &&& (ctx1.same_but_stack(ctx0))
    &&& (if ctx0.stack@.len() == 0 {
            fails_malformed(r, func, index)
        } else if !(id < ctx0.vars@.len() && ctx0.vars@[id as int]@.len() > 0) {
            fails_malformed(r, func, index) && ctx1.stack@ == ctx0.stack@.drop_last()
        } else {
            ctx1.stack@ == ctx0.stack@.drop_last() && (goes_on(r) && alike(
                &g0.memory,
                ctx0.stack@.last(),
                &g1.memory,
                ctx0.vars@[id as int]@.last(),
            ) && (forall|i: int|
                0 <= i < g1.memory.value(ctx0.vars@[id as int]@.last()).parts().len()
                    ==> g1.memory.fresh(
                    &g0.memory,
                    #[trigger] g1.memory.value(ctx0.vars@[id as int]@.last()).parts()[i],
                )) || fails(r, RuntimeErrorView::MemoryExhausted)) && forall|k: ValueKey|
                g0.memory.contains(k) && (k != ctx0.vars@[id as int]@.last() || r is Err)
                    ==> #[trigger] g1.memory.slots()[k] == g0.memory.slots()[k]
        })
    &&& (g1.memory.sealed_since(&g0.memory))
    &&& (g1.arbitrary_ids == g0.arbitrary_ids)
    &&& (g1.objects == g0.objects)
    &&& (g1.triggers == g0.triggers)
    &&& (g1.printed == g0.printed)
    &&& (r matches Err(e) && e@ is MalformedBytecode ==> g1.memory == g0.memory)
}

/// Runs `SetVar`: takes a key off the stack and assigns a deep copy of its
/// value to the variable.
pub fn run_set_var(id: InstrNum, ctx: &mut Context, globals: &mut Globals, func: usize, index: usize) -> (r:
    Result<Flow, RuntimeError>)
    requires
        ready(old(ctx), old(globals)),
    ensures
        out_of_room(r, final(globals)),
        nothing_pushed(r, old(ctx), final(ctx)),
        set_var_effect(id, old(ctx), final(ctx), old(globals), final(globals), func, index, r),
{
    let k = match ctx.pop_key() {
        Some(k) => k,
        None => {
            return Err(malformed(func, index));
        },
    };
    assert(ctx.live(&globals.memory));
    assert(globals.memory.contains(k));
    if !ctx.has_var(id) {
        return Err(malformed(func, index));
    }
    assert(globals.memory.contains(ctx.vars@[id as int]@[ctx.vars@[id as int]@.len() - 1]));
    let ok = ctx.set_var(id, k, globals);
    proof {
        lemma_live_covers(ctx, &old(globals).memory, &globals.memory);
    }
    if ok {
        Ok(Flow::Next)
    } else {
        Err(RuntimeError::MemoryExhausted)
    }
}

/// Whether the keys `copies`, over `g1`, are deep copies, in new slots, of
/// the keys `keys` over `g0`, one by one.
pub open spec fn deep_copies(g0: &Globals, keys: Seq<ValueKey>, g1: &Globals, copies: Seq<ValueKey>) -> bool {
    &&& copies.len() == keys.len()
    &&& forall|i: int|
        0 <= i < keys.len() ==> g1.memory.fresh(&g0.memory, #[trigger] copies[i]) && alike(
            &g0.memory,
            keys[i],
            &g1.memory,
            copies[i],
        )
}

/// Takes the top `n` keys off the stack and copies what they stand for, with
/// all that it is made of, into new slots. Gives the keys of the copies, that
/// of the lowest first.
pub fn pop_deep_clones(ctx: &mut Context, globals: &mut Globals, n: usize, func: usize, index: usize) -> (r:
    Result<Vec<ValueKey>, RuntimeError>)
    requires
        ready(old(ctx), old(globals)),
    ensures
        kept(old(ctx), old(globals), final(ctx), final(globals)),
        only_stored(old(globals), final(globals)),
        final(globals).memory.sealed_since(&old(globals).memory),
        final(ctx).same_but_stack(old(ctx)),
        match r {
            Ok(copies) => dropped_top(old(ctx), final(ctx), n as int) && deep_copies(
                old(globals),
                old(ctx).stack@.skip(old(ctx).stack@.len() - n),
                final(globals),
                copies@,
            ),
            Err(e) => if old(ctx).stack@.len() < n {
                e@ == (RuntimeErrorView::MalformedBytecode { func, index }) && final(ctx).stack@
                    == old(ctx).stack@
            } else {
                e@ == RuntimeErrorView::MemoryExhausted && dropped_top(
                    old(ctx),
                    final(ctx),
                    n as int,
                ) && final(globals).memory.slots().len() >= crate::memory::ARENA_LIMIT
            },
        },
{
    let keys = match pop_keys(ctx, n) {
        Some(k) => k,
        None => {
            return Err(malformed(func, index));
        },
    };
    assert(ctx.live(&globals.memory));
    let r = globals.memory.clone_keys(&keys);
    proof {
        lemma_live_covers(ctx, &old(globals).memory, &globals.memory);
    }
    match r {
        Some(copies) => Ok(copies),
        None => Err(RuntimeError::MemoryExhausted),
    }
}

/// What [`run_build_array`] does to the context and the shared state, and how the
/// context goes on.
pub open spec fn build_array_effect(
    n: InstrNum,
    ctx0: &Context,
    ctx1: &Context,
    g0: &Globals,
    g1: &Globals,
    code: &Code,
    func: usize,
    index: usize,
    r: Result<Flow, RuntimeError>,
) -> bool {
    &&& (kept(ctx0, g0, ctx1, g1))
    &&& (ctx1.same_but_stack(ctx0))
    &&& (only_stored(g0, g1))
    &&& (ctx0.stack@.len() < n ==> fails_malformed(r, func, index))
    &&& (ctx0.stack@.len() >= n ==> (fails(r, RuntimeErrorView::MemoryExhausted) || (goes_on(r)
            && replaced_top(ctx0, ctx1, n as int) && ({
            let made = at(g1, ctx1.stack@.last());
            made.def_area == code.area_of(func, index) && made.value is Array && deep_copies(
                g0,
                ctx0.stack@.skip(ctx0.stack@.len() - n),
                g1,
                made.value->Array_0,
            )
        }))))
}

/// Runs `BuildArray`: takes the top `n` values off the stack and puts an
/// array of deep copies of them, the lowest first, on.
pub fn run_build_array(
    n: InstrNum,
    ctx: &mut Context,
    globals: &mut Globals,
    code: &Code,
    func: usize,
    index: usize,
) -> (r: Result<Flow, RuntimeError>)
    requires
        ready(old(ctx), old(globals)),
    ensures
        out_of_room(r, final(globals)),
        nothing_pushed(r, old(ctx), final(ctx)),
        build_array_effect(n, old(ctx), final(ctx), old(globals), final(globals), code, func, index, r),
{
    let area = code.area_at(func, index);
    let elems = match pop_deep_clones(ctx, globals, n as usize, func, index) {
        Ok(e) => e,
        Err(e) => {
            return Err(e);
        },
    };
    let ghost mid = *globals;
    let ghost copies = elems@;
    let v = Value::Array(elems).into_stored(area);
    assert(v@.value.parts() =~= copies);
    assert(v@.value.captured() =~= Seq::empty());
    match push_value(ctx, globals, v) {
        Ok(_) => {
            proof {
                lemma_follows_chain(old(globals), &mid, globals);
                assert forall|i: int| 0 <= i < copies.len() implies globals.memory.fresh(
                    &old(globals).memory,
                    #[trigger] copies[i],
                ) && alike(
                    &old(globals).memory,
                    old(ctx).stack@.skip(old(ctx).stack@.len() - n)[i],
                    &globals.memory,
                    copies[i],
                ) by {
                    assert(old(globals).memory.contains(
                        old(ctx).stack@[old(ctx).stack@.len() - n + i],
                    ));
                    crate::memory::lemma_alike_copy_grows(
                        &old(globals).memory,
                        old(ctx).stack@.skip(old(ctx).stack@.len() - n)[i],
                        &mid.memory,
                        &globals.memory,
                        copies[i],
                    );
                }
            }
            Ok(Flow::Next)
        },
        Err(e) => {
            proof {
                lemma_follows_chain(old(globals), &mid, globals);
            }
            Err(e)
        },
    }
}

/// What [`run_wrap_maybe`] does to the context and the shared state, and how the
/// context goes on.
pub open spec fn wrap_maybe_effect(
    ctx0: &Context,
    ctx1: &Context,
    g0: &Globals,
    g1: &Globals,
    code: &Code,
    func: usize,
    index: usize,
    r: Result<Flow, RuntimeError>,
) -> bool {
    &&& (kept(ctx0, g0, ctx1, g1))
    &&& (ctx1.same_but_stack(ctx0))
    &&& (only_stored(g0, g1))
    &&& (ctx0.stack@.len() < 1 ==> fails_malformed(r, func, index))
    &&& (ctx0.stack@.len() >= 1 ==> (fails(r, RuntimeErrorView::MemoryExhausted) || (goes_on(r)
            && replaced_top(ctx0, ctx1, 1) && ({
            let made = at(g1, ctx1.stack@.last());
            made.def_area == code.area_of(func, index) && made.value is Maybe
                && made.value->Maybe_0 is Some && g1.memory.fresh(
                &g0.memory,
                made.value->Maybe_0->0,
            ) && alike(
                &g0.memory,
                ctx0.stack@.last(),
                &g1.memory,
                made.value->Maybe_0->0,
            )
        }))))
}

/// Runs `WrapMaybe`: takes a value off the stack and puts a maybe that
/// holds a deep copy of it on.
pub fn run_wrap_maybe(ctx: &mut Context, globals: &mut Globals, code: &Code, func: usize, index: usize) -> (r:
    Result<Flow, RuntimeError>)
    requires
        ready(old(ctx), old(globals)),
    ensures
        out_of_room(r, final(globals)),
        nothing_pushed(r, old(ctx), final(ctx)),
        wrap_maybe_effect(old(ctx), final(ctx), old(globals), final(globals), code, func, index, r),
{
    let area = code.area_at(func, index);
    let elems = match pop_deep_clones(ctx, globals, 1, func, index) {
        Ok(e) => e,
        Err(e) => {
            return Err(e);
        },
    };
    let ghost mid = *globals;
    let k = elems[0];
    let v = Value::Maybe(Some(k)).into_stored(area);
    assert(v@.value.parts() =~= seq![k]);
    assert(v@.value.captured() =~= Seq::empty());
    assert(old(ctx).stack@.skip(old(ctx).stack@.len() - 1)[0] == old(ctx).stack@.last());
    match push_value(ctx, globals, v) {
        Ok(_) => {
            proof {
                lemma_follows_chain(old(globals), &mid, globals);
                assert(old(globals).memory.contains(old(ctx).stack@.last())) by {
                    assert(old(ctx).stack@.last() == old(ctx).stack@[old(ctx).stack@.len() - 1]);
                }
                crate::memory::lemma_alike_copy_grows(
                    &old(globals).memory,
                    old(ctx).stack@.last(),
                    &mid.memory,
                    &globals.memory,
                    k,
                );
            }
            Ok(Flow::Next)
        },
        Err(e) => {
            proof {
                lemma_follows_chain(old(globals), &mid, globals);
            }
            Err(e)
        },
    }
}

/// The fields with `name` given the value `key`: in place where a field has
/// the name, at the end where none has.
pub open spec fn upsert(d: Seq<(Seq<char>, ValueKey)>, name: Seq<char>, key: ValueKey) -> Seq<
    (Seq<char>, ValueKey),
> {
    if exists|j: int| 0 <= j < d.len() && d[j].0 == name {
        let j = choose|j: int| 0 <= j < d.len() && d[j].0 == name;
        d.update(j, (name, key))
    } else {
        d.push((name, key))
    }
}

/// The dictionary that comes of giving the names, one after another, the
/// values at their place.
pub open spec fn dict_of(names: Seq<Seq<char>>, keys: Seq<ValueKey>) -> Seq<(Seq<char>, ValueKey)>
    decreases names.len(),
{
    if names.len() == 0 {
        Seq::<(Seq<char>, ValueKey)>::empty()
    } else {
        upsert(dict_of(names.drop_last(), keys), names.last(), keys[names.len() - 1])
    }
}

/// Whether no name occurs twice among the fields.
pub open spec fn distinct_names(d: Seq<(Seq<char>, ValueKey)>) -> bool {
    forall|i: int, j: int| 0 <= i < j < d.len() ==> d[i].0 != d[j].0
}

#[verifier::loop_isolation(false)]
fn upsert_field(d: &mut Vec<(String, ValueKey)>, name: &String, key: ValueKey)
    requires
        distinct_names(old(d)@.map_values(|p: (String, ValueKey)| (p.0@, p.1))),
    ensures
        final(d)@.map_values(|p: (String, ValueKey)| (p.0@, p.1)) == upsert(
            old(d)@.map_values(|p: (String, ValueKey)| (p.0@, p.1)),
            name@,
            key,
        ),
        distinct_names(final(d)@.map_values(|p: (String, ValueKey)| (p.0@, p.1))),
        forall|i: int|
            0 <= i < final(d)@.len() ==> (#[trigger] final(d)@[i]).1 == key || exists|j: int|
                0 <= j < old(d)@.len() && old(d)@[j].1 == final(d)@[i].1,
{
    let ghost dv = d@.map_values(|p: (String, ValueKey)| (p.0@, p.1));
    let mut j: usize = 0;
    while j < d.len()
        invariant
            j <= d.len(),
            d@ == old(d)@,
            forall|q: int| 0 <= q < j ==> d@[q].0@ != name@,
        decreases d.len() - j,
    {
        if d[j].0 == *name {
            proof {
                assert(dv[j as int].0 == name@);
                let w = choose|w: int| 0 <= w < dv.len() && dv[w].0 == name@;
                if w != j {
                    if w < j {
                        assert(dv[w].0 != dv[j as int].0);
                    } else {
                        assert(dv[j as int].0 != dv[w].0);
                    }
                }
            }
            d.set(j, (name.clone(), key));
            proof {
                let nv = d@.map_values(|p: (String, ValueKey)| (p.0@, p.1));
                assert(nv =~= dv.update(j as int, (name@, key)));
                assert forall|a: int, b: int| 0 <= a < b < nv.len() implies nv[a].0 != nv[b].0 by {
                    assert(dv[a].0 != dv[b].0);
                }
                assert forall|i: int| 0 <= i < d@.len() implies (#[trigger] d@[i]).1 == key || exists|
                    q: int,
                | 0 <= q < old(d)@.len() && old(d)@[q].1 == d@[i].1 by {
                    if i != j {
                        assert(old(d)@[i].1 == d@[i].1);
                    }
                }
            }
            return ;
        }
        j += 1;
    }
    proof {
        assert forall|q: int| 0 <= q < dv.len() implies dv[q].0 != name@ by {
            assert(dv[q].0 == d@[q].0@);
        }
    }
    d.push((name.clone(), key));
    proof {
        let nv = d@.map_values(|p: (String, ValueKey)| (p.0@, p.1));
        assert(nv =~= dv.push((name@, key)));
        assert forall|a: int, b: int| 0 <= a < b < nv.len() implies nv[a].0 != nv[b].0 by {
            if b < dv.len() {
                assert(dv[a].0 != dv[b].0);
            }
        }
        assert forall|i: int| 0 <= i < d@.len() implies (#[trigger] d@[i]).1 == key || exists|
            q: int,
        | 0 <= q < old(d)@.len() && old(d)@[q].1 == d@[i].1 by {
            if i < old(d)@.len() {
                assert(old(d)@[i].1 == d@[i].1);
            }
        }
    }
}

/// The texts of a list of names.
pub open spec fn names_view(names: Seq<String>) -> Seq<Seq<char>> {
    names.map_values(|s: String| s@)
}

/// What [`run_build_dict`] does to the context and the shared state, and how the
/// context goes on.
pub open spec fn build_dict_effect(
    id: InstrNum,
    ctx0: &Context,
    ctx1: &Context,
    g0: &Globals,
    g1: &Globals,
    code: &Code,
    func: usize,
    index: usize,
    r: Result<Flow, RuntimeError>,
) -> bool {
    &&& (kept(ctx0, g0, ctx1, g1))
    &&& (ctx1.same_but_stack(ctx0))
    &&& (only_stored(g0, g1))
    &&& (id >= code.name_sets@.len() || ctx0.stack@.len() < code.name_sets@[id as int]@.len()
            ==> fails_malformed(r, func, index))
    &&& (id < code.name_sets@.len() && ctx0.stack@.len() >= code.name_sets@[id as int]@.len()
            ==> (fails(r, RuntimeErrorView::MemoryExhausted) || (goes_on(r) && replaced_top(
            ctx0,
            ctx1,
            code.name_sets@[id as int]@.len() as int,
        ) && ({
            let n = code.name_sets@[id as int]@.len();
            let made = at(g1, ctx1.stack@.last());
            made.def_area == code.area_of(func, index) && made.value is Dict && exists|
                copies: Seq<ValueKey>,
            | #[trigger]
                deep_copies(
                    g0,
                    ctx0.stack@.skip(ctx0.stack@.len() - n),
                    g1,
                    copies,
                ) && made.value->Dict_0 == dict_of(
                    names_view(code.name_sets@[id as int]@),
                    copies.reverse(),
                )
        }))))
}

/// Runs `BuildDict`: takes as many values off the stack as the name set has
/// names and puts on a dictionary that gives the first name a deep copy of
/// the topmost value, the second name one of the value below, and so on. A
/// name that comes again takes the place of the one before.
pub fn run_build_dict(
    id: InstrNum,
    ctx: &mut Context,
    globals: &mut Globals,
    code: &Code,
    func: usize,
    index: usize,
) -> (r: Result<Flow, RuntimeError>)
    requires
        ready(old(ctx), old(globals)),
    ensures
        out_of_room(r, final(globals)),
        nothing_pushed(r, old(ctx), final(ctx)),
        build_dict_effect(id, old(ctx), final(ctx), old(globals), final(globals), code, func, index, r),
{
    if (id as usize) >= code.name_sets.len() {
        return Err(malformed(func, index));
    }
    let names = &code.name_sets[id as usize];
    let n = names.len();
    let area = code.area_at(func, index);
    let copies = match pop_deep_clones(ctx, globals, n, func, index) {
        Ok(e) => e,
        Err(e) => {
            return Err(e);
        },
    };
    let ghost mid = *globals;
    let ghost nv = names_view(names@);
    let ghost rev = copies@.reverse();
    let mut d: Vec<(String, ValueKey)> = Vec::new();
    let mut i: usize = 0;
    assert(nv.take(0) =~= Seq::empty());
    assert(d@.map_values(|p: (String, ValueKey)| (p.0@, p.1)) =~= Seq::empty());
    while i < n
        invariant
            i <= n,
            n == names@.len(),
            n == copies@.len(),
            nv == names_view(names@),
            rev == copies@.reverse(),
            d@.map_values(|p: (String, ValueKey)| (p.0@, p.1)) == dict_of(nv.take(i as int), rev),
            distinct_names(d@.map_values(|p: (String, ValueKey)| (p.0@, p.1))),
            forall|q: int|
                0 <= q < d@.len() ==> exists|w: int|
                    0 <= w < copies@.len() && copies@[w] == (#[trigger] d@[q]).1,
        decreases n - i,
    {
        assert(nv.take(i + 1).drop_last() =~= nv.take(i as int));
        assert(nv.take(i + 1).last() == names@[i as int]@);
        let key = copies[n - 1 - i];
        assert(rev[i as int] == key);
        let ghost before = d@;
        upsert_field(&mut d, &names[i], key);
        proof {
            assert forall|q: int| 0 <= q < d@.len() implies exists|w: int|
                0 <= w < copies@.len() && copies@[w] == (#[trigger] d@[q]).1 by {
                if d@[q].1 == key {
                    assert(copies@[n - 1 - i] == key);
                } else {
                    let j = choose|j: int| 0 <= j < before.len() && before[j].1 == d@[q].1;
                    let w = choose|w: int| 0 <= w < copies@.len() && copies@[w] == before[j].1;
                    assert(copies@[w] == d@[q].1);
                }
            }
        }
        i += 1;
    }
    assert(nv.take(n as int) =~= nv);
    let ghost dv = d@.map_values(|p: (String, ValueKey)| (p.0@, p.1));
    let ghost fields = d@;
    let v = Value::Dict(d).into_stored(area);
    proof {
        assert(v@.value == ValueView::Dict(dv));
        assert(v@.value.captured() =~= Seq::empty());
        assert forall|q: int| 0 <= q < v@.value.parts().len() implies globals.memory.contains(
            #[trigger] v@.value.parts()[q],
        ) by {
            assert(v@.value.parts()[q] == fields[q].1);
            let w = choose|w: int| 0 <= w < copies@.len() && copies@[w] == fields[q].1;
            assert(globals.memory.fresh(&old(globals).memory, copies@[w]));
        }
    }
    match push_value(ctx, globals, v) {
        Ok(_) => {
            proof {
                lemma_follows_chain(old(globals), &mid, globals);
                let want = old(ctx).stack@.skip(old(ctx).stack@.len() - n);
                assert forall|q: int| 0 <= q < want.len() implies globals.memory.fresh(
                    &old(globals).memory,
                    #[trigger] copies@[q],
                ) && alike(&old(globals).memory, want[q], &globals.memory, copies@[q]) by {
                    assert(old(globals).memory.contains(
                        old(ctx).stack@[old(ctx).stack@.len() - n + q],
                    ));
                    crate::memory::lemma_alike_copy_grows(
                        &old(globals).memory,
                        want[q],
                        &mid.memory,
                        &globals.memory,
                        copies@[q],
                    );
                }
                assert(deep_copies(old(globals), want, globals, copies@));
            }
            Ok(Flow::Next)
        },
        Err(e) => {
            proof {
                lemma_follows_chain(old(globals), &mid, globals);
            }
            Err(e)
        },
    }
}

} // verus!
