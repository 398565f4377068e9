//! Walking through arrays, dictionaries and texts.

use vstd::prelude::*;
use crate::contexts::{lemma_live_covers, Context, ValueIter};
use crate::error::{RuntimeError, RuntimeErrorView};
use crate::globals::Globals;
use crate::memory::{alike, new_copy_of, Memory, ARENA_LIMIT};
use crate::sources::CodeArea;
use crate::value::{copy_fields, copy_keys, StoredValue, StoredValueView, Value, ValueKey, ValueView};

verus! {

/// Whether `it` is the walk that starts on the value `a` for a `for` at
/// `for_area`: a walk through the elements of an array, the fields of a
/// dictionary in their order, or the characters of a text.
pub open spec fn starts_on(it: &ValueIter, a: StoredValueView, for_area: CodeArea) -> bool {
    match a.value {
        ValueView::Array(v) => it matches ValueIter::Array(keys, at) && keys@ == v && *at == 0,
        ValueView::String(s) => it matches ValueIter::String(text, area, at) && text@ == s && *area
            == a.def_area && *at == 0,
        ValueView::Dict(d) => it matches ValueIter::Dict { dict_area, for_area: fa, idx, elems }
            && *dict_area == a.def_area && *fa == for_area && *idx == 0 && elems@.map_values(
            |p: (String, ValueKey)| (p.0@, p.1),
        ) == d,
        _ => false,
    }
}

/// The walk through the value `a` for a `for` at `for_area`; an error where
/// `a` is neither an array nor a dictionary nor a text.
pub fn to_iter(a: &StoredValue, for_area: CodeArea) -> (r: Result<ValueIter, RuntimeError>)
    ensures
        match r {
            Ok(it) => starts_on(&it, a@, for_area) && it.keys() == a@.value.parts(),
            Err(e) => !(a@.value is Array || a@.value is String || a@.value is Dict) && e@
                == (RuntimeErrorView::CannotIterate { a: a@ }),
        },
{
    match &a.value {
        Value::Array(v) => Ok(ValueIter::Array(copy_keys(v), 0)),
        Value::String(s) => {
            let it = ValueIter::String(s.clone(), a.def_area, 0);
            assert(it.keys() =~= a@.value.parts());
            Ok(it)
        },
        Value::Dict(map) => {
            let it = ValueIter::Dict {
                dict_area: a.def_area,
                for_area,
                idx: 0,
                elems: copy_fields(map),
            };
            assert(it->Dict_elems@.map_values(|p: (String, ValueKey)| (p.0@, p.1)) =~= a@.value->Dict_0);
            assert(it.keys() =~= a@.value.parts());
            Ok(it)
        },
        _ => Err(RuntimeError::CannotIterate { a: a.copy() }),
    }
}

/// Whether `v`, over the arena `now`, is the element that the walk `it` is
/// at, read over the arena `before`: a copy, over new slots, of the element
/// of an array;
/// for a dictionary a pair, in new slots, of the name of the field and a
/// deep copy of its value; the character of a text, as a text.
pub open spec fn element_of(it: &ValueIter, before: &Memory, now: &Memory, v: StoredValueView) -> bool {
    match it {
        ValueIter::Array(keys, at) => v.def_area == before.slots()[keys@[*at as int]]@.def_area
            && new_copy_of(before, before.value(keys@[*at as int]), now, v.value),
        ValueIter::Dict { dict_area, for_area, idx, elems } => {
            &&& v.def_area == *for_area
            &&& v.value matches ValueView::Array(pair)
            &&& pair.len() == 2
            &&& now.fresh(before, pair[0])
            &&& now.fresh(before, pair[1])
            &&& now.slots()[pair[0]]@ == (StoredValueView {
                value: ValueView::String(elems@[*idx as int].0@),
                def_area: *dict_area,
            })
            &&& alike(before, elems@[*idx as int].1, now, pair[1])
        },
        ValueIter::String(text, area, at) => v == (StoredValueView {
            value: ValueView::String(seq![text@[*at as int]]),
            def_area: *area,
        }),
    }
}

impl ValueIter {
    /// The place one on from `at`: the next number, as far as numbers go.
    pub open spec fn place_after(at: usize) -> usize {
        if at < usize::MAX {
            (at + 1) as usize
        } else {
            at
        }
    }

    /// Whether `self` is `other` one place on.
    pub open spec fn one_after(&self, other: &ValueIter) -> bool {
        match (self, other) {
            (ValueIter::Array(k1, a1), ValueIter::Array(k0, a0)) => k1 == k0 && *a1
                == ValueIter::place_after(*a0),
            (
                ValueIter::Dict { dict_area: d1, for_area: f1, idx: i1, elems: e1 },
                ValueIter::Dict { dict_area: d0, for_area: f0, idx: i0, elems: e0 },
            ) => d1 == d0 && f1 == f0 && e1 == e0 && *i1 == ValueIter::place_after(*i0),
            (ValueIter::String(s1, r1, a1), ValueIter::String(s0, r0, a0)) => s1 == s0 && r1 == r0
                && *a1 == ValueIter::place_after(*a0),
            _ => false,
        }
    }

    /// The next element of the walk, or `None` at its end. Either way the
    /// walk then stands one place on. An element is stored nowhere yet; what
    /// it is made of is.
    pub fn next(&mut self, globals: &mut Globals) -> (r: Result<Option<StoredValue>, RuntimeError>)
        requires
            old(globals).wf(),
            old(self).live(&old(globals).memory),
        ensures
            final(globals).wf(),
            final(globals).follows(old(globals)),
            final(globals).memory.extends(&old(globals).memory),
            final(globals).memory.sealed_since(&old(globals).memory),
            final(globals).arbitrary_ids == old(globals).arbitrary_ids,
            final(globals).objects == old(globals).objects,
            final(globals).triggers == old(globals).triggers,
            final(globals).printed == old(globals).printed,
            final(globals).calls == old(globals).calls,
            final(globals).call_counter == old(globals).call_counter,
            final(self).keys() == old(self).keys(),
            final(self).one_after(old(self)),
            match r {
                Ok(Some(v)) => old(self).at() < old(self).length() && final(globals).memory.admits(
                    v@.value,
                ) && element_of(
                    old(self),
                    &old(globals).memory,
                    &final(globals).memory,
                    v@,
                ),
                Ok(None) => old(self).at() >= old(self).length() && *final(globals) == *old(globals),
                Err(e) => old(self).at() < old(self).length() && e@
                    == RuntimeErrorView::MemoryExhausted && final(globals).memory.slots().len()
                    >= ARENA_LIMIT,
            },
            forall|c: Context|
                c.live(&old(globals).memory) ==> #[trigger] c.live(&final(globals).memory),
    {
        let ghost start = globals.memory;
        proof {
            assert forall|c: Context| c.live(&start) implies #[trigger] c.live(&start) by {}
        }
        let r = match self {
            ValueIter::Array(v, idx) => {
                if *idx < v.len() {
                    let k = v[*idx];
                    assert(old(self).keys()[*idx as int] == k);
                    *idx = *idx + 1;
                    match globals.memory.deep_clone(k) {
                        Some(c) => Ok(Some(c)),
                        None => Err(RuntimeError::MemoryExhausted),
                    }
                } else {
                    if *idx < usize::MAX {
                        *idx = *idx + 1;
                    }
                    Ok(None)
                }
            },
            ValueIter::Dict { dict_area, for_area, idx, elems } => {
                if *idx < elems.len() {
                    let name = elems[*idx].0.clone();
                    let k = elems[*idx].1;
                    assert(old(self).keys()[*idx as int] == k);
                    let da = *dict_area;
                    let fa = *for_area;
                    *idx = *idx + 1;
                    let stored_name = Value::String(name).into_stored(da);
                    assert(stored_name@.value.parts() =~= Seq::empty());
                    assert(stored_name@.value.captured() =~= Seq::empty());
                    let ghost snv = stored_name@;
                    let k1 = match globals.memory.try_insert(stored_name) {
                        Some(k1) => k1,
                        None => {
                            proof {
                                step_keeps_live(&start, &globals.memory);
                            }
                            return Err(RuntimeError::MemoryExhausted);
                        },
                    };
                    let ghost mid = globals.memory;
                    proof {
                        crate::memory::lemma_sealed_chain_insert(&start, &start, &mid, k1);
                    }
                    assert(mid.contains(k1));
                    assert(mid.slots()[k1]@ == snv);
                    assert(mid.contains(k));
                    let k2 = match globals.memory.key_deep_clone(k) {
                        Some(k2) => k2,
                        None => {
                            proof {
                                step_keeps_live(&start, &globals.memory);
                                crate::memory::lemma_sealed_chain(&start, &mid, &globals.memory);
                            }
                            return Err(RuntimeError::MemoryExhausted);
                        },
                    };
                    proof {
                        crate::memory::lemma_sealed_chain(&start, &mid, &globals.memory);
                    }
                    let mut pair: Vec<ValueKey> = Vec::new();
                    pair.push(k1);
                    pair.push(k2);
                    let out = Value::Array(pair).into_stored(fa);
                    proof {
                        assert(out@.value.parts() =~= seq![k1, k2]);
                        assert(out@.value.captured() =~= Seq::empty());
                        assert(globals.memory.contains(k1));
                        assert(globals.memory.contains(k2));
                        assert(globals.memory.slots()[k1] == mid.slots()[k1]);
                        assert(!start.contains(k1));
                        assert(!start.contains(k2));
                        assert(start.contains(k));
                        crate::memory::lemma_alike_source_grows(
                            &start,
                            &mid,
                            k,
                            &globals.memory,
                            k2,
                        );
                    }
                    Ok(Some(out))
                } else {
                    if *idx < usize::MAX {
                        *idx = *idx + 1;
                    }
                    Ok(None)
                }
            },
            ValueIter::String(s, area, idx) => {
                let n = s.as_str().unicode_len();
                if *idx < n {
                    let c = s.as_str().get_char(*idx);
                    let ar = *area;
                    *idx = *idx + 1;
                    let mut t = String::new();
                    t.push(c);
                    assert(t@ =~= seq![c]);
                    let out = Value::String(t).into_stored(ar);
                    assert(out@.value.parts() =~= Seq::empty());
                    assert(out@.value.captured() =~= Seq::empty());
                    Ok(Some(out))
                } else {
                    if *idx < usize::MAX {
                        *idx = *idx + 1;
                    }
                    Ok(None)
                }
            },
        };
        proof {
            step_keeps_live(&start, &globals.memory);
        }
        r
    }
}

/// A context whose keys are keys of slots keeps them so when the arena
/// grows.
pub proof fn step_keeps_live(before: &Memory, now: &Memory)
    requires
        now.covers(before),
    ensures
        forall|c: Context| c.live(before) ==> #[trigger] c.live(now),
{
    assert forall|c: Context| c.live(before) implies #[trigger] c.live(now) by {
        lemma_live_covers(&c, before, now);
    }
}

} // verus!
