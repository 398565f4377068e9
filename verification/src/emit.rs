//! The instructions that make objects and triggers and emit them, and the
//! one that hands out arbitrary ids.

use vstd::prelude::*;
use crate::bytecode::{Code, InstrNum};
use crate::contexts::Context;
use crate::data::only_stored;
use crate::error::{RuntimeError, RuntimeErrorView};
use crate::float::{exact_float, from_exact, is_exact, FloatUnit, EXACT_LIMIT};
use crate::flow::{
    at, dropped_top, fails, fails_malformed, from_top, goes_on, kept, lemma_follows_chain,
    malformed, nothing_pushed, out_of_room, ready, replaced_top, Flow,
};
use crate::globals::Globals;
use crate::ids::{Group, Id, IdClass, ID_MAX};
use crate::machine::push_value;
use crate::objects::{with_param, GdObj, GdObjView, ObjParam, ObjParamView, ObjectMode};
use crate::value::{StoredValueView, Value, ValueKey, ValueView};

verus! {

/// The object id of a spawn trigger, 1268, as a float.
pub const SPAWN_TRIGGER: u64 = 0x4093_D000_0000_0000;

/// The key that an integer names: its low 16 bits.
pub open spec fn low16(n: i64) -> u16 {
    n as u16
}

/// Whether `p` is the parameter that the value `v` becomes: a number for an
/// integer or a float, a text for a text, a truth value for a truth value,
/// a group for a group or for a trigger function, by its start group. An
/// integer of a magnitude of at most 2^53 becomes the float that it is; a
/// larger one the float that the floating-point unit makes of it.
pub open spec fn converts(v: ValueView, p: ObjParamView) -> bool {
    match v {
        ValueView::Int(n) => if is_exact(n) {
            p == ObjParamView::Number(exact_float(n))
        } else {
            p is Number
        },
        ValueView::Float(x) => p == ObjParamView::Number(x),
        ValueView::String(s) => p == ObjParamView::Text(s),
        ValueView::Bool(b) => p == ObjParamView::Bool(b),
        ValueView::Group(g) => p == ObjParamView::Group(Group::of(g)),
        ValueView::TriggerFunc { start_group } => p == ObjParamView::Group(Group::of(start_group)),
        _ => false,
    }
}

/// Whether a value can become a parameter.
pub open spec fn convertible(v: ValueView) -> bool {
    v is Int || v is Float || v is String || v is Bool || v is Group || v is TriggerFunc
}

/// The parameter that a value becomes, if it can become one.
pub fn to_param<F: FloatUnit>(v: &Value, fl: &F) -> (r: Option<ObjParam>)
    ensures
        match r {
            Some(p) => converts(v@, p@),
            None => !convertible(v@),
        },
{
    match v {
        Value::Int(n) => if -EXACT_LIMIT <= *n && *n <= EXACT_LIMIT {
            Some(ObjParam::Number(from_exact(*n)))
        } else {
            Some(ObjParam::Number(fl.from_int(*n)))
        },
        Value::Float(x) => Some(ObjParam::Number(*x)),
        Value::String(s) => Some(ObjParam::Text(s.clone())),
        Value::Bool(b) => Some(ObjParam::Bool(*b)),
        Value::Group(g) => Some(ObjParam::Group(Group::from_id(*g))),
        Value::TriggerFunc { start_group } => Some(ObjParam::Group(Group::from_id(*start_group))),
        _ => None,
    }
}

/// The parameters that come of setting the pairs of key and parameter one
/// after another, the last pair first: where a key comes twice, the earlier
/// pair stays.
pub open spec fn object_of(pairs: Seq<(u16, ObjParamView)>) -> Seq<(u16, ObjParamView)>
    decreases pairs.len(),
{
    if pairs.len() == 0 {
        pairs
    } else {
        with_param(object_of(pairs.drop_first()), pairs[0].0, pairs[0].1)
    }
}

/// Whether `pairs` are what the `n` pairs of key and value on top of the
/// stack of `ctx` become: each key an integer, taken by its low 16 bits, and
/// each value the parameter at its place.
pub open spec fn reads_pairs(ctx: &Context, g: &Globals, n: int, pairs: Seq<(u16, ObjParamView)>) -> bool {
    reads_top(ctx.stack@, g, n, pairs)
}

/// [`reads_pairs`] for a stack.
pub open spec fn reads_top(stack: Seq<ValueKey>, g: &Globals, n: int, pairs: Seq<(u16, ObjParamView)>) -> bool {
    &&& pairs.len() == n
    &&& stack.len() >= 2 * n
    &&& forall|i: int|
        0 <= i < n ==> #[trigger] reads_pair(
            at(g, stack[stack.len() - 2 * n + 2 * i]).value,
            at(g, stack[stack.len() - 2 * n + 2 * i + 1]).value,
            pairs[i],
        )
}

/// Whether the key `k` and the value `v` become the pair `p`.
pub open spec fn reads_pair(k: ValueView, v: ValueView, p: (u16, ObjParamView)) -> bool {
    k matches ValueView::Int(x) && p.0 == low16(x) && converts(v, p.1)
}

/// Whether the pair that stands `x` pairs below the top of the stack can be
/// read: it is there, its key is an integer and its value can become a
/// parameter.
pub open spec fn good_pair(g: &Globals, stack: Seq<ValueKey>, x: int) -> bool {
    &&& stack.len() >= 2 * x + 2
    &&& at(g, from_top(stack, 2 * x + 1)).value is Int
    &&& convertible(at(g, from_top(stack, 2 * x)).value)
}

/// Whether the pair that stands `j` pairs below the top of the stack is the
/// first, from the top, that cannot be read.
pub open spec fn first_wrong_pair(g: &Globals, stack: Seq<ValueKey>, j: int) -> bool {
    &&& 0 <= j
    &&& !good_pair(g, stack, j)
    &&& forall|x: int| 0 <= x < j ==> #[trigger] good_pair(g, stack, x)
}

/// The error for the pair that stands `j` pairs below the top of the stack
/// and cannot be read: the pair is not there, or its key is no integer, or
/// its value cannot become a parameter.
pub open spec fn pair_error(
    g: &Globals,
    stack: Seq<ValueKey>,
    j: int,
    func: usize,
    index: usize,
) -> RuntimeErrorView {
    let key = at(g, from_top(stack, 2 * j + 1));
    let value = at(g, from_top(stack, 2 * j));
    if stack.len() < 2 * j + 2 {
        RuntimeErrorView::MalformedBytecode { func, index }
    } else if !(key.value is Int) {
        RuntimeErrorView::TypeMismatch { v: key, expected: "integer"@, area: key.def_area }
    } else {
        RuntimeErrorView::TypeMismatch {
            v: value,
            expected: "valid object property value"@,
            area: value.def_area,
        }
    }
}

/// Whether the `n` pairs on top of the stack cannot all be read, `e` is the
/// error for the first that cannot, and `left` is the stack without it and
/// the pairs above it.
pub open spec fn pair_fails(
    g: &Globals,
    stack: Seq<ValueKey>,
    n: int,
    left: Seq<ValueKey>,
    e: RuntimeErrorView,
    func: usize,
    index: usize,
) -> bool {
    exists|j: int| #[trigger]
        first_wrong_pair(g, stack, j) && j < n && e == pair_error(g, stack, j, func, index) && left
            == stack.take(
            if stack.len() >= 2 * j + 2 {
                stack.len() - 2 * j - 2
            } else {
                0
            },
        )
}

/// Builds the object of the `n` pairs of key and value on top of the stack,
/// the topmost pair first. What is wrong with a pair is an error; the pairs
/// above it are then off the stack, and so is the pair itself.
pub fn build_object<F: FloatUnit>(
    n: InstrNum,
    mode: ObjectMode,
    ctx: &mut Context,
    globals: &Globals,
    fl: &F,
    func: usize,
    index: usize,
) -> (r: Result<GdObj, RuntimeError>)
    requires
        ready(old(ctx), globals),
    ensures
        kept(old(ctx), globals, final(ctx), globals),
        final(ctx).same_but_stack(old(ctx)),
        match r {
            Ok(obj) => obj.wf() && obj@.mode == mode && dropped_top(old(ctx), final(ctx), 2 * n)
                && (exists|pairs: Seq<(u16, ObjParamView)>| #[trigger]
                reads_pairs(old(ctx), globals, n as int, pairs) && obj@.params == object_of(pairs))
                && (forall|x: int| 0 <= x < n ==> #[trigger] good_pair(globals, old(ctx).stack@, x)),
            Err(e) => pair_fails(
                globals,
                old(ctx).stack@,
                n as int,
                final(ctx).stack@,
                e@,
                func,
                index,
            ),
        },
{
    let mut obj = GdObj::new(mode);
    let ghost s0 = ctx.stack@;
    let ghost mut pairs: Seq<(u16, ObjParamView)> = Seq::empty();
    let mut i: u16 = 0;
    assert(ctx.stack@.take(ctx.stack@.len() as int) =~= ctx.stack@);
    while i < n
        invariant
            i <= n,
            obj.wf(),
            obj@.mode == mode,
            globals.wf(),
            s0 == old(ctx).stack@,
            ctx.same_but_stack(old(ctx)),
            ctx.live(&globals.memory),
            pairs.len() == i,
            s0.len() >= 2 * i,
            ctx.stack@ == s0.take(s0.len() - 2 * i),
            obj@.params == object_of(pairs),
            reads_top(s0, globals, i as int, pairs),
            forall|x: int| 0 <= x < i ==> #[trigger] good_pair(globals, s0, x),
        decreases n - i,
    {
        let kv = match ctx.pop_key() {
            Some(k) => k,
            None => {
                assert(first_wrong_pair(globals, s0, i as int));
                assert(ctx.stack@ =~= s0.take(0));
                return Err(malformed(func, index));
            },
        };
        let kk = match ctx.pop_key() {
            Some(k) => k,
            None => {
                assert(first_wrong_pair(globals, s0, i as int));
                assert(ctx.stack@ =~= s0.take(0));
                return Err(malformed(func, index));
            },
        };
        assert(globals.memory.contains(kv) && globals.memory.contains(kk));
        assert(kv == s0[s0.len() - 2 * i - 1]);
        assert(kk == s0[s0.len() - 2 * i - 2]);
        assert(kv == from_top(s0, 2 * i));
        assert(kk == from_top(s0, 2 * i + 1));
        assert(ctx.stack@ =~= s0.take(s0.len() - 2 * i - 2));
        let key_value = globals.memory.get(kk);
        let key: u16 = match &key_value.value {
            Value::Int(x) => #[verifier::truncate]
            (*x as u16),
            _ => {
                assert(first_wrong_pair(globals, s0, i as int));
                return Err(
                    RuntimeError::TypeMismatch {
                        v: key_value.copy(),
                        expected: String::from_str("integer"),
                        area: key_value.def_area,
                    },
                );
            },
        };
        let val = globals.memory.get(kv);
        let param = match to_param(&val.value, fl) {
            Some(p) => p,
            None => {
                assert(first_wrong_pair(globals, s0, i as int));
                return Err(
                    RuntimeError::TypeMismatch {
                        v: val.copy(),
                        expected: String::from_str("valid object property value"),
                        area: val.def_area,
                    },
                );
            },
        };
        let ghost was = pairs;
        let ghost pv = param@;
        let ghost kv0 = key_value@;
        let ghost vv0 = val@;
        obj.insert(key, param);
        i += 1;
        proof {
            pairs = seq![(key, pv)] + was;
            assert(pairs.drop_first() =~= was);
            assert(ctx.stack@ =~= s0.take(s0.len() - 2 * i));
            assert forall|j: int| 0 <= j < i implies #[trigger] reads_pair(
                at(globals, s0[s0.len() - 2 * i + 2 * j]).value,
                at(globals, s0[s0.len() - 2 * i + 2 * j + 1]).value,
                pairs[j],
            ) by {
                if j > 0 {
                    assert(pairs[j] == was[j - 1]);
                    assert(s0.len() - 2 * i + 2 * j == s0.len() - 2 * (i - 1) + 2 * (j - 1));
                    assert(reads_pair(
                        at(globals, s0[s0.len() - 2 * (i - 1) + 2 * (j - 1)]).value,
                        at(globals, s0[s0.len() - 2 * (i - 1) + 2 * (j - 1) + 1]).value,
                        was[j - 1],
                    ));
                } else {
                    assert(pairs[0] == (key, pv));
                    assert(s0[s0.len() - 2 * i + 2 * j] == kk);
                    assert(s0[s0.len() - 2 * i + 2 * j + 1] == kv);
                    assert(at(globals, kk) == kv0);
                    assert(at(globals, kv) == vv0);
                }
            }
        }
    }
    assert(reads_pairs(old(ctx), globals, n as int, pairs));
    Ok(obj)
}

/// What [`run_build_object`] does to the context and the shared state, and how the
/// context goes on.
pub open spec fn build_object_effect(
    n: InstrNum,
    mode: ObjectMode,
    ctx0: &Context,
    ctx1: &Context,
    g0: &Globals,
    g1: &Globals,
    code: &Code,
    func: usize,
    index: usize,
    r: Result<Flow, RuntimeError>,
) -> bool {
    &&& (kept(ctx0, g0, ctx1, g1))
    &&& (ctx1.same_but_stack(ctx0))
    &&& (only_stored(g0, g1))
    &&& (match r {
            Ok(f) => f is Next && replaced_top(ctx0, ctx1, 2 * n) && ({
                let made = at(g1, ctx1.stack@.last());
                made.def_area == code.area_of(func, index) && (made.value matches ValueView::Object(
                    o,
                ) && o.mode == mode && exists|pairs: Seq<(u16, ObjParamView)>| #[trigger]
                    reads_pairs(ctx0, g0, n as int, pairs) && o.params == object_of(
                        pairs,
                    ))
            }),
            Err(e) => pair_fails(g0, ctx0.stack@, n as int, ctx1.stack@, e@, func, index) || (e@
                == RuntimeErrorView::MemoryExhausted && dropped_top(ctx0, ctx1, 2 * n)
                && forall|x: int| 0 <= x < n ==> #[trigger] good_pair(g0, ctx0.stack@, x)),
        })
}

/// Runs `BuildObject` or `BuildTrigger`: takes `n` pairs of key and value
/// off the stack and puts the object made of them on.
pub fn run_build_object<F: FloatUnit>(
    n: InstrNum,
    mode: ObjectMode,
    ctx: &mut Context,
    globals: &mut Globals,
    code: &Code,
    fl: &F,
    func: usize,
    index: usize,
) -> (r: Result<Flow, RuntimeError>)
    requires
        ready(old(ctx), old(globals)),
    ensures
        out_of_room(r, final(globals)),
        nothing_pushed(r, old(ctx), final(ctx)),
        build_object_effect(n, mode, old(ctx), final(ctx), old(globals), final(globals), code, func, index, r),
{
    let area = code.area_at(func, index);
    let obj = match build_object(n, mode, ctx, globals, fl, func, index) {
        Ok(o) => o,
        Err(e) => {
            return Err(e);
        },
    };
    let v = Value::Object(obj).into_stored(area);
    assert(v@.value.parts() =~= Seq::empty());
    assert(v@.value.captured() =~= Seq::empty());
    match push_value(ctx, globals, v) {
        Ok(_) => {
            proof {
                let pairs = choose|pairs: Seq<(u16, ObjParamView)>| #[trigger]
                    reads_pairs(old(ctx), old(globals), n as int, pairs) && v@.value->Object_0.params
                        == object_of(pairs);
                assert(reads_pairs(old(ctx), old(globals), n as int, pairs));
            }
            Ok(Flow::Next)
        },
        Err(e) => Err(e),
    }
}

/// The trigger that is emitted for the object `o` by a context of group
/// `group`: `o` with its parameter 57 set to the group.
pub open spec fn tagged(o: GdObjView, group: Id) -> GdObjView {
    GdObjView {
        params: with_param(o.params, 57, ObjParamView::Group(Group::of(group))),
        mode: o.mode,
    }
}

/// What [`run_add_object`] does to the context and the shared state, and how the
/// context goes on.
pub open spec fn add_object_effect(
    ctx0: &Context,
    ctx1: &Context,
    g0: &Globals,
    g1: &Globals,
    func: usize,
    index: usize,
    r: Result<Flow, RuntimeError>,
) -> bool {
    &&& (kept(ctx0, g0, ctx1, g1))
    &&& (g1.memory == g0.memory)
    &&& (g1.arbitrary_ids == g0.arbitrary_ids)
    &&& (g1.printed == g0.printed)
    &&& (ctx1.same_but_stack(ctx0))
    &&& (if ctx0.stack@.len() == 0 {
            fails_malformed(r, func, index) && g1.objects == g0.objects
                && g1.triggers == g0.triggers
        } else {
            ctx1.stack@ == ctx0.stack@.drop_last() && ({
                let x = at(g0, ctx0.stack@.last());
                match x.value {
                    ValueView::Object(o) => goes_on(r) && (match o.mode {
                        ObjectMode::Object => g1.triggers == g0.triggers
                            && g1.objects@.len() == g0.objects@.len() + 1
                            && g1.objects@.drop_last() == g0.objects@
                            && g1.objects@.last()@ == o,
                        ObjectMode::Trigger => g1.objects == g0.objects
                            && g1.triggers@.len() == g0.triggers@.len() + 1
                            && g1.triggers@.drop_last() == g0.triggers@
                            && g1.triggers@.last()@ == tagged(o, ctx0.group),
                    }),
                    _ => fails(
                        r,
                        RuntimeErrorView::TypeMismatch {
                            v: x,
                            expected: "obj or trigger"@,
                            area: x.def_area,
                        },
                    ) && g1.objects == g0.objects && g1.triggers
                        == g0.triggers,
                }
            })
        })
}

impl GdObj {
    /// Tags the object with the group of the context: sets its parameter 57
    /// to the group, and gives a copy of what it is then.
    pub fn context_parameters(&mut self, context: &Context) -> (r: GdObj)
        requires
            old(self).wf(),
        ensures
            final(self).wf(),
            final(self)@ == tagged(old(self)@, context.group),
            r@ == final(self)@,
    {
        self.insert(57, ObjParam::Group(Group::from_id(context.group)));
        self.copy()
    }
}

/// Runs `AddObject`: takes an object off the stack and emits it: a plain
/// object as it is, a trigger tagged with the group of the context.
pub fn run_add_object(ctx: &mut Context, globals: &mut Globals, func: usize, index: usize) -> (r:
    Result<Flow, RuntimeError>)
    requires
        ready(old(ctx), old(globals)),
    ensures
        out_of_room(r, final(globals)),
        nothing_pushed(r, old(ctx), final(ctx)),
        add_object_effect(old(ctx), final(ctx), old(globals), final(globals), func, index, r),
{
    let k = match ctx.pop_key() {
        Some(k) => k,
        None => {
            return Err(malformed(func, index));
        },
    };
    assert(ctx.live(&globals.memory));
    assert(globals.memory.contains(k));
    assert(globals.memory.admits(globals.memory.value(k)));
    let taken: Result<GdObj, RuntimeError> = {
        let object = globals.memory.get(k);
        match &object.value {
            Value::Object(obj) => Ok(obj.copy()),
            _ => Err(
                RuntimeError::TypeMismatch {
                    v: object.copy(),
                    expected: String::from_str("obj or trigger"),
                    area: object.def_area,
                },
            ),
        }
    };
    let mut obj = match taken {
        Ok(o) => o,
        Err(e) => {
            return Err(e);
        },
    };
    match obj.mode {
        ObjectMode::Object => {
            let ghost before = globals.objects@;
            globals.objects.push(obj);
            assert(globals.objects@.drop_last() =~= before);
        },
        ObjectMode::Trigger => {
            let tagged_copy = obj.context_parameters(ctx);
            let ghost before = globals.triggers@;
            globals.triggers.push(tagged_copy);
            assert(globals.triggers@.drop_last() =~= before);
        },
    }
    Ok(Flow::Next)
}

/// The trigger that calls a trigger function: a spawn trigger that targets
/// the start group of the function, tagged with the group of the caller.
pub open spec fn spawn_trigger(target: Id, source: Id) -> GdObjView {
    GdObjView {
        params: seq![
            (1u16, ObjParamView::Number(SPAWN_TRIGGER)),
            (51u16, ObjParamView::Group(Group::of(target))),
            (57u16, ObjParamView::Group(Group::of(source))),
        ],
        mode: ObjectMode::Trigger,
    }
}

/// The trigger that calls a trigger function.
pub fn add_spawn_trigger(target: Id, source: Id) -> (r: GdObj)
    ensures
        r.wf(),
        r@ == spawn_trigger(target, source),
{
    let mut obj = GdObj::new(ObjectMode::Trigger);
    assert(obj@.params =~= Seq::empty());
    obj.insert(1, ObjParam::Number(SPAWN_TRIGGER));
    let ghost one = obj@.params;
    assert(one =~= seq![(1u16, ObjParamView::Number(SPAWN_TRIGGER))]);
    obj.insert(51, ObjParam::Group(Group::from_id(target)));
    let ghost two = obj@.params;
    assert(one.last().0 < 51);
    assert(two =~= seq![
        (1u16, ObjParamView::Number(SPAWN_TRIGGER)),
        (51u16, ObjParamView::Group(Group::of(target))),
    ]);
    obj.insert(57, ObjParam::Group(Group::from_id(source)));
    assert(two.last().0 < 57);
    assert(obj@.params =~= spawn_trigger(target, source).params);
    obj
}

/// What [`run_trigger_func_call`] does to the context and the shared state, and how the
/// context goes on.
pub open spec fn trigger_func_call_effect(
    ctx0: &Context,
    ctx1: &Context,
    g0: &Globals,
    g1: &Globals,
    func: usize,
    index: usize,
    r: Result<Flow, RuntimeError>,
) -> bool {
    &&& (kept(ctx0, g0, ctx1, g1))
    &&& (g1.memory == g0.memory)
    &&& (g1.arbitrary_ids == g0.arbitrary_ids)
    &&& (g1.printed == g0.printed)
    &&& (g1.objects == g0.objects)
    &&& (ctx1.same_but_stack(ctx0))
    &&& (if ctx0.stack@.len() == 0 {
            fails_malformed(r, func, index) && g1.triggers == g0.triggers
        } else {
            ctx1.stack@ == ctx0.stack@.drop_last() && ({
                let x = at(g0, ctx0.stack@.last());
                match x.value {
                    ValueView::TriggerFunc { start_group } => goes_on(r) && g1.triggers@.len() == g0.triggers@.len() + 1 && g1.triggers@.drop_last() == g0.triggers@ && g1.triggers@.last()@ == spawn_trigger(start_group, ctx0.group),
                    _ => fails(
                        r,
                        RuntimeErrorView::TypeMismatch {
                            v: x,
                            expected: "trigger function"@,
                            area: x.def_area,
                        },
                    ) && g1.triggers == g0.triggers,
                }
            })
        })
}

/// Runs `TriggerFuncCall`: takes a trigger function off the stack and emits
/// the trigger that calls it.
pub fn run_trigger_func_call(ctx: &mut Context, globals: &mut Globals, func: usize, index: usize) -> (r:
    Result<Flow, RuntimeError>)
    requires
        ready(old(ctx), old(globals)),
    ensures
        out_of_room(r, final(globals)),
        nothing_pushed(r, old(ctx), final(ctx)),
        trigger_func_call_effect(old(ctx), final(ctx), old(globals), final(globals), func, index, r),
{
    let k = match ctx.pop_key() {
        Some(k) => k,
        None => {
            return Err(malformed(func, index));
        },
    };
    assert(ctx.live(&globals.memory));
    assert(globals.memory.contains(k));
    let taken: Result<Id, RuntimeError> = {
        let v = globals.memory.get(k);
        match &v.value {
            Value::TriggerFunc { start_group } => Ok(*start_group),
            _ => Err(
                RuntimeError::TypeMismatch {
                    v: v.copy(),
                    expected: String::from_str("trigger function"),
                    area: v.def_area,
                },
            ),
        }
    };
    let target = match taken {
        Ok(t) => t,
        Err(e) => {
            return Err(e);
        },
    };
    let obj = add_spawn_trigger(target, ctx.group);
    let ghost before = globals.triggers@;
    globals.triggers.push(obj);
    assert(globals.triggers@.drop_last() =~= before);
    Ok(Flow::Next)
}

/// The value that holds an id of a class.
pub open spec fn id_value(class: IdClass, id: Id) -> ValueView {
    match class {
        IdClass::Group => ValueView::Group(id),
        IdClass::Color => ValueView::Color(id),
        IdClass::Block => ValueView::Block(id),
        IdClass::Item => ValueView::Item(id),
    }
}

/// What [`run_load_arbitrary_id`] does to the context and the shared state, and how the
/// context goes on.
pub open spec fn load_arbitrary_id_effect(
    class: IdClass,
    ctx0: &Context,
    ctx1: &Context,
    g0: &Globals,
    g1: &Globals,
    code: &Code,
    func: usize,
    index: usize,
    r: Result<Flow, RuntimeError>,
) -> bool {
    &&& (kept(ctx0, g0, ctx1, g1))
    &&& (g1.memory.extends(&g0.memory))
    &&& (g1.objects == g0.objects)
    &&& (g1.triggers == g0.triggers)
    &&& (g1.printed == g0.printed)
    &&& (ctx1.same_but_stack(ctx0))
    &&& (if g0.arbitrary_ids.of(class) == 0xFFFF {
            fails(r, RuntimeErrorView::LevelLimitExceeded { class, actual: 0x1_0000, max: ID_MAX })
                && g1.arbitrary_ids == g0.arbitrary_ids && ctx1.stack@
                == ctx0.stack@
        } else {
            g1.arbitrary_ids == g0.arbitrary_ids.with(
                class,
                (g0.arbitrary_ids.of(class) + 1) as u16,
            ) && (fails(r, RuntimeErrorView::MemoryExhausted) || (goes_on(r) && replaced_top(
                ctx0,
                ctx1,
                0,
            ) && at(g1, ctx1.stack@.last()) == (StoredValueView {
                value: id_value(class, Id::Arbitrary(g0.arbitrary_ids.of(class))),
                def_area: code.area_of(func, index),
            })))
        })
}

/// Runs `LoadArbitraryId`: hands the next arbitrary id of the class out and
/// puts it, stored in a new slot, on the stack.
pub fn run_load_arbitrary_id(
    class: IdClass,
    ctx: &mut Context,
    globals: &mut Globals,
    code: &Code,
    func: usize,
    index: usize,
) -> (r: Result<Flow, RuntimeError>)
    requires
        ready(old(ctx), old(globals)),
    ensures
        out_of_room(r, final(globals)),
        nothing_pushed(r, old(ctx), final(ctx)),
        load_arbitrary_id_effect(class, old(ctx), final(ctx), old(globals), final(globals), code, func, index, r),
{
    let area = code.area_at(func, index);
    let id = match globals.next_id(class) {
        Ok(id) => id,
        Err(e) => {
            return Err(e);
        },
    };
    let ghost mid = *globals;
    let v = match class {
        IdClass::Group => Value::Group(id),
        IdClass::Color => Value::Color(id),
        IdClass::Block => Value::Block(id),
        IdClass::Item => Value::Item(id),
    };
    assert(v@.parts() =~= Seq::empty());
    assert(v@.captured() =~= Seq::empty());
    let r = push_value(ctx, globals, v.into_stored(area));
    proof {
        lemma_follows_chain(old(globals), &mid, globals);
        assert(old(ctx).stack@.take(old(ctx).stack@.len() as int) =~= old(ctx).stack@);
    }
    match r {
        Ok(_) => Ok(Flow::Next),
        Err(e) => Err(e),
    }
}

} // verus!
