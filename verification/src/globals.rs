//! The state of a run that every context shares.

use vstd::prelude::*;
use crate::calls::{CallId, LiveCalls};
use crate::error::{RuntimeError, RuntimeErrorView};
use crate::ids::{ArbitraryId, Id, IdClass, ID_MAX};
use crate::memory::Memory;
use crate::objects::GdObj;

verus! {

/// The arbitrary ids that were handed out, class by class: the next one of
/// a class is the number of those handed out before.
#[derive(Clone, Copy, Debug, PartialEq, Eq, Structural)]
pub struct IdCounters {
    pub group: ArbitraryId,
    pub color: ArbitraryId,
    pub block: ArbitraryId,
    pub item: ArbitraryId,
}

impl IdCounters {
    /// The counter of one class.
    pub open spec fn of(self, class: IdClass) -> ArbitraryId {
        match class {
            IdClass::Group => self.group,
            IdClass::Color => self.color,
            IdClass::Block => self.block,
            IdClass::Item => self.item,
        }
    }

    /// The same with the counter of one class replaced.
    pub open spec fn with(self, class: IdClass, n: ArbitraryId) -> IdCounters {
        match class {
            IdClass::Group => IdCounters { group: n, ..self },
            IdClass::Color => IdCounters { color: n, ..self },
            IdClass::Block => IdCounters { block: n, ..self },
            IdClass::Item => IdCounters { item: n, ..self },
        }
    }

    /// Whether no counter is below what it is in `before`.
    pub open spec fn at_least(self, before: IdCounters) -> bool {
        self.group >= before.group && self.color >= before.color && self.block >= before.block
            && self.item >= before.item
    }
}

/// The state of a run that every context shares.
pub struct Globals {
    pub memory: Memory,
    pub instance_id: u32,
    pub arbitrary_ids: IdCounters,
    pub objects: Vec<GdObj>,
    pub triggers: Vec<GdObj>,
    pub calls: LiveCalls,
    pub call_counter: CallId,
    /// What `print` has shown, line by line.
    pub printed: Vec<String>,
}

impl Globals {
    /// The invariant: that of the arena, and every object and trigger has
    /// its parameters sorted by key.
    pub open spec fn wf(&self) -> bool {
        &&& self.memory.wf()
        &&& forall|i: int| 0 <= i < self.objects@.len() ==> (#[trigger] self.objects@[i]).wf()
        &&& forall|i: int| 0 <= i < self.triggers@.len() ==> (#[trigger] self.triggers@[i]).wf()
    }

    /// Whether `self` can have come out of `before` by running: the arena has
    /// every slot that it had, no counter went back, and the objects, the
    /// triggers and the printed lines are those of `before` and maybe more.
    pub open spec fn follows(&self, before: &Globals) -> bool {
        &&& self.memory.covers(&before.memory)
        &&& self.arbitrary_ids.at_least(before.arbitrary_ids)
        &&& before.objects@.len() <= self.objects@.len()
        &&& forall|i: int|
            0 <= i < before.objects@.len() ==> (#[trigger] self.objects@[i])@ == before.objects@[i]@
        &&& before.triggers@.len() <= self.triggers@.len()
        &&& forall|i: int|
            0 <= i < before.triggers@.len() ==> (#[trigger] self.triggers@[i])@
                == before.triggers@[i]@
        &&& before.printed@.len() <= self.printed@.len()
        &&& forall|i: int|
            0 <= i < before.printed@.len() ==> (#[trigger] self.printed@[i])@ == before.printed@[i]@
        &&& before.calls@.subset_of(self.calls@)
    }

    /// The state at the start of a run: nothing stored, nothing handed out,
    /// nothing emitted.
    pub fn new() -> (r: Globals)
        ensures
            r.wf(),
            r.memory.slots() == crate::memory::Slots::empty(),
            r.arbitrary_ids == (IdCounters { group: 0, color: 0, block: 0, item: 0 }),
            r.objects@.len() == 0,
            r.triggers@.len() == 0,
            r.printed@.len() == 0,
            r.calls@ == Set::<usize>::empty(),
            r.call_counter == CallId(0),
    {
        Globals {
            memory: Memory::new(),
            instance_id: 0,
            arbitrary_ids: IdCounters { group: 0, color: 0, block: 0, item: 0 },
            objects: Vec::new(),
            triggers: Vec::new(),
            calls: LiveCalls::new(),
            call_counter: CallId(0),
            printed: Vec::new(),
        }
    }

    /// Prepares the state for a run. There is nothing to prepare.
    pub fn init(&mut self)
        ensures
            *final(self) == *old(self),
    {
    }

    /// Hands out the next arbitrary id of `class`. Once 65535 of a class
    /// are out, no further one is.
    pub fn next_id(&mut self, class: IdClass) -> (r: Result<Id, RuntimeError>)
        ensures
            final(self).memory == old(self).memory,
            final(self).objects == old(self).objects,
            final(self).triggers == old(self).triggers,
            final(self).calls == old(self).calls,
            final(self).printed == old(self).printed,
            final(self).call_counter == old(self).call_counter,
            match r {
                Ok(id) => old(self).arbitrary_ids.of(class) < 0xFFFF && id == Id::Arbitrary(
                    old(self).arbitrary_ids.of(class),
                ) && final(self).arbitrary_ids == old(self).arbitrary_ids.with(
                    class,
                    (old(self).arbitrary_ids.of(class) + 1) as u16,
                ),
                Err(e) => old(self).arbitrary_ids.of(class) == 0xFFFF && final(self).arbitrary_ids
                    == old(self).arbitrary_ids && e@ == (RuntimeErrorView::LevelLimitExceeded {
                    class,
                    actual: 0x1_0000,
                    max: ID_MAX,
                }),
            },
    {
        let k = match class {
            IdClass::Group => self.arbitrary_ids.group,
            IdClass::Color => self.arbitrary_ids.color,
            IdClass::Block => self.arbitrary_ids.block,
            IdClass::Item => self.arbitrary_ids.item,
        };
        if k == 0xFFFF {
            return Err(RuntimeError::LevelLimitExceeded { class, actual: 0x1_0000, max: ID_MAX });
        }
        match class {
            IdClass::Group => {
                self.arbitrary_ids.group = k + 1;
            },
            IdClass::Color => {
                self.arbitrary_ids.color = k + 1;
            },
            IdClass::Block => {
                self.arbitrary_ids.block = k + 1;
            },
            IdClass::Item => {
                self.arbitrary_ids.item = k + 1;
            },
        }
        Ok(Id::Arbitrary(k))
    }

    /// Copies slot `k` of the arena, with all that it is made of, into new
    /// slots and gives the key of the copy.
    pub fn key_deep_clone(&mut self, k: crate::value::ValueKey) -> (r: Option<
        crate::value::ValueKey,
    >)
        requires
            old(self).wf(),
            old(self).memory.contains(k),
        ensures
            final(self).wf(),
            final(self).follows(old(self)),
            final(self).memory.extends(&old(self).memory),
            final(self).memory.sealed_since(&old(self).memory),
            final(self).arbitrary_ids == old(self).arbitrary_ids,
            final(self).objects == old(self).objects,
            final(self).triggers == old(self).triggers,
            final(self).printed == old(self).printed,
            final(self).calls == old(self).calls,
            final(self).call_counter == old(self).call_counter,
            match r {
                Some(c) => final(self).memory.fresh(&old(self).memory, c) && crate::memory::alike(
                    &old(self).memory,
                    k,
                    &final(self).memory,
                    c,
                ),
                None => final(self).memory.slots().len() >= crate::memory::ARENA_LIMIT,
            },
    {
        self.memory.key_deep_clone(k)
    }

    /// Copies all that slot `k` of the arena is made of into new slots and
    /// gives a copy of the slot's value over them.
    pub fn deep_clone(&mut self, k: crate::value::ValueKey) -> (r: Option<
        crate::value::StoredValue,
    >)
        requires
            old(self).wf(),
            old(self).memory.contains(k),
        ensures
            final(self).wf(),
            final(self).follows(old(self)),
            final(self).memory.extends(&old(self).memory),
            final(self).memory.sealed_since(&old(self).memory),
            match r {
                Some(v) => v@.def_area == old(self).memory.slots()[k]@.def_area
                    && crate::memory::new_copy_of(
                    &old(self).memory,
                    old(self).memory.value(k),
                    &final(self).memory,
                    v@.value,
                ) && final(self).memory.admits(v@.value),
                None => final(self).memory.slots().len() >= crate::memory::ARENA_LIMIT,
            },
            old(self).memory.value(k).parts().len() == 0 ==> r is Some && *final(self) == *old(self),
            final(self).arbitrary_ids == old(self).arbitrary_ids,
            final(self).objects == old(self).objects,
            final(self).triggers == old(self).triggers,
            final(self).printed == old(self).printed,
            final(self).calls == old(self).calls,
            final(self).call_counter == old(self).call_counter,
    {
        self.memory.deep_clone(k)
    }
}

impl crate::value::Value {
    /// Copies all that the value is made of into new slots of the arena and
    /// gives a copy of the value over them; `None` where the arena filled up
    /// first.
    pub fn deep_clone(&self, globals: &mut Globals) -> (r: Option<crate::value::Value>)
        requires
            old(globals).wf(),
            old(globals).memory.admits(self@),
        ensures
            final(globals).wf(),
            final(globals).follows(old(globals)),
            final(globals).memory.extends(&old(globals).memory),
            final(globals).memory.sealed_since(&old(globals).memory),
            match r {
                Some(w) => crate::memory::new_copy_of(
                    &old(globals).memory,
                    self@,
                    &final(globals).memory,
                    w@,
                ) && final(globals).memory.admits(w@),
                None => final(globals).memory.slots().len() >= crate::memory::ARENA_LIMIT,
            },
            self@.parts().len() == 0 ==> r is Some && *final(globals) == *old(globals),
            final(globals).arbitrary_ids == old(globals).arbitrary_ids,
            final(globals).objects == old(globals).objects,
            final(globals).triggers == old(globals).triggers,
            final(globals).printed == old(globals).printed,
            final(globals).calls == old(globals).calls,
            final(globals).call_counter == old(globals).call_counter,
    {
        globals.memory.deep_clone_value(self)
    }
}

impl crate::value::StoredValue {
    /// Copies all that the value is made of into new slots of the arena and
    /// gives a copy of the stored value over them; `None` where the arena
    /// filled up first.
    pub fn deep_clone(&self, globals: &mut Globals) -> (r: Option<crate::value::StoredValue>)
        requires
            old(globals).wf(),
            old(globals).memory.admits(self@.value),
        ensures
            final(globals).wf(),
            final(globals).follows(old(globals)),
            final(globals).memory.extends(&old(globals).memory),
            final(globals).memory.sealed_since(&old(globals).memory),
            match r {
                Some(w) => w@.def_area == self@.def_area && crate::memory::new_copy_of(
                    &old(globals).memory,
                    self@.value,
                    &final(globals).memory,
                    w@.value,
                ) && final(globals).memory.admits(w@.value),
                None => final(globals).memory.slots().len() >= crate::memory::ARENA_LIMIT,
            },
            self@.value.parts().len() == 0 ==> r is Some && *final(globals) == *old(globals),
            final(globals).arbitrary_ids == old(globals).arbitrary_ids,
            final(globals).objects == old(globals).objects,
            final(globals).triggers == old(globals).triggers,
            final(globals).printed == old(globals).printed,
            final(globals).calls == old(globals).calls,
            final(globals).call_counter == old(globals).call_counter,
    {
        match self.value.deep_clone(globals) {
            Some(value) => Some(crate::value::StoredValue { value, def_area: self.def_area }),
            None => None,
        }
    }
}

/// Two arbitrary ids of one class that were handed out one after the other,
/// with whatever between that moved no counter back, differ.
pub proof fn lemma_ids_distinct(
    g0: IdCounters,
    g1: IdCounters,
    g2: IdCounters,
    g3: IdCounters,
    class: IdClass,
)
    requires
        g0.of(class) < 0xFFFF,
        g1 == g0.with(class, (g0.of(class) + 1) as u16),
        g2.at_least(g1),
        g2.of(class) < 0xFFFF,
        g3 == g2.with(class, (g2.of(class) + 1) as u16),
    ensures
        Id::Arbitrary(g0.of(class)) != Id::Arbitrary(g2.of(class)),
{
}

} // verus!
