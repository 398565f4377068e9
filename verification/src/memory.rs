//! The value arena: a slot map from keys to stored values.
//!
//! Values refer to each other by key only. The arena never gives a slot up,
//! so a key stays good once it is handed out. Besides the slots the arena
//! carries, in ghost state, a rank for every key that is above the ranks of
//! the key's parts: this is what makes walking a value terminate.

use vstd::prelude::*;
use crate::value::{lemma_rekeyed, StoredValue, StoredValueView, Value, ValueKey, ValueView};

verus! {

/// The slot map itself. Verus sees it only through [`arena_slots`].
#[verifier::external_body]
pub struct Arena {
    slots: slotmap::SlotMap<slotmap::DefaultKey, StoredValue>,
}

/// What a slot map holds, as a map from keys to stored values.
pub type Slots = Map<ValueKey, StoredValue>;

/// The largest number of values that the slot map takes: it refuses the next
/// insertion once its slots, of which one is a sentinel, fill 32 bits.
pub const ARENA_LIMIT: usize = 0xFFFF_FFFE;

/// The contents of the slot map.
pub uninterp spec fn arena_slots(a: Arena) -> Map<ValueKey, StoredValue>;

/// `SlotMap::new`: a slot map with nothing in it.
#[verifier::external_body]
fn arena_new() -> (a: Arena)
    ensures
        arena_slots(a) == Slots::empty(),
{
    Arena { slots: slotmap::SlotMap::new() }
}

/// `SlotMap::len`: the number of values held.
#[verifier::external_body]
fn arena_len(a: &Arena) -> (n: usize)
    ensures
        n == arena_slots(*a).len(),
{
    a.slots.len()
}

/// `SlotMap::insert`: stores the value under a key that the map did not
/// hold and changes no other slot. The slot map panics when it is full, which
/// the bound on its length rules out.
#[verifier::external_body]
fn arena_insert(a: &mut Arena, v: StoredValue) -> (k: ValueKey)
    requires
        arena_slots(*old(a)).dom().finite(),
        arena_slots(*old(a)).len() < ARENA_LIMIT,
    ensures
        !arena_slots(*old(a)).dom().contains(k),
        arena_slots(*final(a)) == arena_slots(*old(a)).insert(k, v),
{
    a.slots.insert(v)
}

/// `SlotMap`'s `Index`: the value under a key that the map holds. It panics
/// on any other key.
#[verifier::external_body]
fn arena_get(a: &Arena, k: ValueKey) -> (v: &StoredValue)
    requires
        arena_slots(*a).dom().contains(k),
    ensures
        *v == arena_slots(*a)[k],
{
    &a.slots[k]
}

/// `SlotMap`'s `IndexMut`: puts a new value under a key that the map holds
/// and changes no other slot. It panics on any other key.
#[verifier::external_body]
fn arena_set(a: &mut Arena, k: ValueKey, v: StoredValue)
    requires
        arena_slots(*old(a)).dom().contains(k),
    ensures
        arena_slots(*final(a)) == arena_slots(*old(a)).insert(k, v),
{
    a.slots[k] = v;
}

/// `SlotMap::contains_key`: whether the map holds the key.
#[verifier::external_body]
fn arena_contains(a: &Arena, k: ValueKey) -> (r: bool)
    ensures
        r == arena_slots(*a).dom().contains(k),
{
    a.slots.contains_key(k)
}

/// The arena with the ranks of its keys.
pub struct Memory {
    pub arena: Arena,
    pub rank: Ghost<Map<ValueKey, nat>>,
    pub top: Ghost<nat>,
}

impl View for Memory {
    type V = Map<ValueKey, StoredValueView>;

    open spec fn view(&self) -> Map<ValueKey, StoredValueView> {
        self.slots().map_values(|v: StoredValue| v@)
    }
}

impl Memory {
    /// The slots of the arena.
    pub open spec fn slots(&self) -> Slots {
        arena_slots(self.arena)
    }

    /// Whether `k` is the key of a slot.
    pub open spec fn contains(&self, k: ValueKey) -> bool {
        self.slots().dom().contains(k)
    }

    /// The value in slot `k`.
    pub open spec fn value(&self, k: ValueKey) -> ValueView {
        self.slots()[k]@.value
    }

    /// The rank of `k`.
    pub open spec fn rank_of(&self, k: ValueKey) -> nat {
        self.rank@[k]
    }

    /// Whether every key that `v` holds, part or captured, is the key of a
    /// slot.
    pub open spec fn holds(&self, v: ValueView) -> bool {
        &&& forall|i: int| 0 <= i < v.parts().len() ==> self.contains(#[trigger] v.parts()[i])
        &&& forall|i: int|
            0 <= i < v.captured().len() ==> self.contains(#[trigger] v.captured()[i])
    }

    /// Whether `v` can be stored: its keys are keys of slots and it is sound
    /// in itself.
    pub open spec fn admits(&self, v: ValueView) -> bool {
        self.holds(v) && v.sound()
    }

    /// The invariant of the arena: it is finite, every stored value can be
    /// stored, every key has a rank below `top`, and the parts of a value
    /// rank below it.
    pub open spec fn wf(&self) -> bool {
        &&& self.slots().dom().finite()
        &&& forall|k: ValueKey| #[trigger] self.contains(k) ==> self.admits(self.value(k))
        &&& forall|k: ValueKey|
            #[trigger] self.contains(k) ==> self.rank@.dom().contains(k) && self.rank@[k]
                < self.top@
        &&& forall|k: ValueKey, i: int|
            self.contains(k) && 0 <= i < self.value(k).parts().len() ==> self.rank@[#[trigger] self.value(
                k,
            ).parts()[i]] < self.rank@[k]
    }

    /// Whether `self` has every slot of `before`, with the same value and the
    /// same rank: what insertions do to an arena.
    pub open spec fn extends(&self, before: &Memory) -> bool {
        &&& forall|k: ValueKey|
            #[trigger] before.contains(k) ==> self.contains(k) && self.slots()[k]
                == before.slots()[k] && self.rank@[k] == before.rank@[k]
        &&& before.top@ <= self.top@
    }

    /// Whether `self` has every key of `before`.
    pub open spec fn covers(&self, before: &Memory) -> bool {
        forall|k: ValueKey| #[trigger] before.contains(k) ==> self.contains(k)
    }

    /// Whether `k` is a key of `self` that `before` did not have.
    pub open spec fn fresh(&self, before: &Memory, k: ValueKey) -> bool {
        self.contains(k) && !before.contains(k)
    }

    /// Whether every slot that `before` did not have is made of such slots
    /// only: what was added since `before` shares no part with it.
    pub open spec fn sealed_since(&self, before: &Memory) -> bool {
        forall|k: ValueKey, i: int|
            self.fresh(before, k) && 0 <= i < self.value(k).parts().len() ==> !before.contains(
                #[trigger] self.value(k).parts()[i],
            )
    }

    /// An empty arena.
    pub fn new() -> (r: Memory)
        ensures
            r.wf(),
            r.slots() == Slots::empty(),
    {
        Memory { arena: arena_new(), rank: Ghost(Map::empty()), top: Ghost(0) }
    }

    /// The number of values held.
    pub fn len(&self) -> (n: usize)
        requires
            self.wf(),
        ensures
            n == self.slots().len(),
    {
        arena_len(&self.arena)
    }

    /// Whether the arena takes no further value.
    pub fn is_full(&self) -> (r: bool)
        requires
            self.wf(),
        ensures
            r == (self.slots().len() >= ARENA_LIMIT),
    {
        arena_len(&self.arena) >= ARENA_LIMIT
    }

    /// Whether `k` is the key of a slot.
    pub fn has(&self, k: ValueKey) -> (r: bool)
        ensures
            r == self.contains(k),
    {
        arena_contains(&self.arena, k)
    }

    /// The value in slot `k`.
    pub fn get(&self, k: ValueKey) -> (v: &StoredValue)
        requires
            self.contains(k),
        ensures
            *v == self.slots()[k],
    {
        arena_get(&self.arena, k)
    }

    /// Stores `v` in a new slot and returns its key.
    pub fn insert(&mut self, v: StoredValue) -> (k: ValueKey)
        requires
            old(self).wf(),
            old(self).slots().len() < ARENA_LIMIT,
            old(self).admits(v@.value),
        ensures
            final(self).wf(),
            final(self).extends(old(self)),
            !old(self).contains(k),
            final(self).slots() == old(self).slots().insert(k, v),
            final(self).rank@[k] == old(self).top@,
    {
        let ghost val = v@.value;
        let k = arena_insert(&mut self.arena, v);
        proof {
            let ghost r = old(self).top@;
            self.rank@ = self.rank@.insert(k, r);
            self.top@ = r + 1;
            assert forall|j: ValueKey| #[trigger] self.contains(j) implies self.rank@.dom().contains(
                j,
            ) && self.rank@[j] < self.top@ by {
                if j != k {
                    assert(old(self).contains(j));
                }
            }
            assert forall|j: ValueKey| #[trigger] self.contains(j) implies self.admits(
                self.value(j),
            ) by {
                if j != k {
                    assert(old(self).contains(j));
                    assert(old(self).admits(old(self).value(j)));
                }
            }
            assert forall|j: ValueKey, i: int|
                self.contains(j) && 0 <= i < self.value(j).parts().len() implies self.rank@[#[trigger] self.value(
                j,
            ).parts()[i]] < self.rank@[j] by {
                let p = self.value(j).parts()[i];
                if j != k {
                    assert(old(self).contains(j));
                    assert(old(self).admits(old(self).value(j)));
                    assert(old(self).contains(p));
                } else {
                    assert(old(self).contains(p));
                }
            }
        }
        k
    }

    /// Stores `v` in a new slot, unless the arena is full.
    pub fn try_insert(&mut self, v: StoredValue) -> (r: Option<ValueKey>)
        requires
            old(self).wf(),
            old(self).admits(v@.value),
        ensures
            final(self).wf(),
            final(self).extends(old(self)),
            match r {
                Some(k) => !old(self).contains(k) && final(self).slots() == old(self).slots().insert(k, v) && final(self).rank@[k] == old(self).top@,
                None => *final(self) == *old(self) && old(self).slots().len() >= ARENA_LIMIT,
            },
    {
        if self.is_full() {
            None
        } else {
            Some(self.insert(v))
        }
    }
}

/// Whether slot `kb` of `b` holds a copy of what slot `ka` of `a` holds: the
/// same value but for the keys of its parts, and each part a copy of the part
/// in its place.
pub open spec fn alike(a: &Memory, ka: ValueKey, b: &Memory, kb: ValueKey) -> bool
    decreases a.rank_of(ka),
    when a.wf() && a.contains(ka)
{
    &&& b.contains(kb)
    &&& b.slots()[kb]@.def_area == a.slots()[ka]@.def_area
    &&& b.value(kb).parts().len() == a.value(ka).parts().len()
    &&& b.value(kb) == a.value(ka).rekeyed(b.value(kb).parts())
    &&& forall|i: int|
        0 <= i < a.value(ka).parts().len() ==> alike(
            a,
            a.value(ka).parts()[i],
            b,
            #[trigger] b.value(kb).parts()[i],
        )
}

/// Whether `vb`, a value over `b`, is a copy of `va`, a value over `a`: the
/// same value but for the keys of its parts, and each part a copy of the part
/// in its place.
pub open spec fn copy_of(a: &Memory, va: ValueView, b: &Memory, vb: ValueView) -> bool {
    &&& vb.parts().len() == va.parts().len()
    &&& vb == va.rekeyed(vb.parts())
    &&& forall|i: int|
        0 <= i < va.parts().len() ==> alike(a, va.parts()[i], b, #[trigger] vb.parts()[i])
}

/// Whether `vb` is a copy of `va`, as [`copy_of`] has it, over slots that
/// `a` did not have.
pub open spec fn new_copy_of(a: &Memory, va: ValueView, b: &Memory, vb: ValueView) -> bool {
    &&& copy_of(a, va, b, vb)
    &&& forall|i: int| 0 <= i < vb.parts().len() ==> b.fresh(a, #[trigger] vb.parts()[i])
}

/// A copy stays one when the arena it was copied from grows.
pub proof fn lemma_alike_source_grows(a: &Memory, a2: &Memory, ka: ValueKey, b: &Memory, kb: ValueKey)
    requires
        a.wf(),
        a2.wf(),
        a2.extends(a),
        a.contains(ka),
    ensures
        alike(a, ka, b, kb) == alike(a2, ka, b, kb),
    decreases a.rank_of(ka),
{
    assert(a.admits(a.value(ka)));
    assert(a2.value(ka) == a.value(ka));
    assert forall|i: int| 0 <= i < a.value(ka).parts().len() implies alike(
        a,
        a.value(ka).parts()[i],
        b,
        b.value(kb).parts()[i],
    ) == alike(a2, a.value(ka).parts()[i], b, b.value(kb).parts()[i]) by {
        let p = a.value(ka).parts()[i];
        assert(a.contains(p));
        lemma_alike_source_grows(a, a2, p, b, b.value(kb).parts()[i]);
    }
}

/// A copy stays one when the arena that holds it grows.
pub proof fn lemma_alike_copy_grows(a: &Memory, ka: ValueKey, b: &Memory, b2: &Memory, kb: ValueKey)
    requires
        a.wf(),
        a.contains(ka),
        b2.extends(b),
        alike(a, ka, b, kb),
    ensures
        alike(a, ka, b2, kb),
    decreases a.rank_of(ka),
{
    assert(a.admits(a.value(ka)));
    assert(b.contains(kb));
    assert(b2.value(kb) == b.value(kb));
    assert forall|i: int| 0 <= i < a.value(ka).parts().len() implies alike(
        a,
        a.value(ka).parts()[i],
        b2,
        #[trigger] b2.value(kb).parts()[i],
    ) by {
        let p = a.value(ka).parts()[i];
        assert(a.contains(p));
        assert(alike(a, p, b, b.value(kb).parts()[i]));
        lemma_alike_copy_grows(a, p, b, b2, b.value(kb).parts()[i]);
    }
}

/// A copy of a copy is a copy of the first.
pub proof fn lemma_alike_transitive(
    a: &Memory,
    ka: ValueKey,
    b: &Memory,
    kb: ValueKey,
    c: &Memory,
    kc: ValueKey,
)
    requires
        a.wf(),
        b.wf(),
        a.contains(ka),
        alike(a, ka, b, kb),
        alike(b, kb, c, kc),
    ensures
        alike(a, ka, c, kc),
    decreases a.rank_of(ka),
{
    assert(a.admits(a.value(ka)));
    assert(b.contains(kb));
    assert(b.admits(b.value(kb)));
    let va = a.value(ka);
    let vb = b.value(kb);
    let vc = c.value(kc);
    lemma_rekeyed_twice(va, vb.parts(), vc.parts());
    assert forall|i: int| 0 <= i < va.parts().len() implies alike(
        a,
        va.parts()[i],
        c,
        #[trigger] vc.parts()[i],
    ) by {
        assert(a.contains(va.parts()[i]));
        assert(alike(a, va.parts()[i], b, vb.parts()[i]));
        assert(alike(b, vb.parts()[i], c, vc.parts()[i]));
        lemma_alike_transitive(a, va.parts()[i], b, vb.parts()[i], c, vc.parts()[i]);
    }
}

/// Every slot is a copy of itself.
pub proof fn lemma_alike_reflexive(a: &Memory, k: ValueKey)
    requires
        a.wf(),
        a.contains(k),
    ensures
        alike(a, k, a, k),
    decreases a.rank_of(k),
{
    assert(a.admits(a.value(k)));
    lemma_rekeyed(a.value(k), a.value(k).parts());
    assert forall|i: int| 0 <= i < a.value(k).parts().len() implies alike(
        a,
        a.value(k).parts()[i],
        a,
        #[trigger] a.value(k).parts()[i],
    ) by {
        assert(a.contains(a.value(k).parts()[i]));
        lemma_alike_reflexive(a, a.value(k).parts()[i]);
    }
}

/// Replacing the parts twice is replacing them by the second keys.
pub proof fn lemma_rekeyed_twice(v: ValueView, ps: Seq<ValueKey>, qs: Seq<ValueKey>)
    requires
        ps.len() == v.parts().len(),
        qs.len() == ps.len(),
    ensures
        v.rekeyed(ps).rekeyed(qs) == v.rekeyed(qs),
{
    match v {
        ValueView::Dict(d) => {
            assert(v.rekeyed(ps).rekeyed(qs)->Dict_0 =~= v.rekeyed(qs)->Dict_0);
        },
        ValueView::Macro(m) => {
            crate::value::lemma_rekeyed_args_twice(m.args, ps, qs);
        },
        _ => {},
    }
}

/// What was added since `mid` is sealed, `mid` grew from `before` and was
/// sealed since then: so what was added since `before` is sealed.
pub proof fn lemma_sealed_chain(before: &Memory, mid: &Memory, now: &Memory)
    requires
        mid.extends(before),
        now.extends(mid),
        mid.sealed_since(before),
        now.sealed_since(mid),
    ensures
        now.sealed_since(before),
        now.extends(before),
{
    assert forall|k: ValueKey, i: int|
        now.fresh(before, k) && 0 <= i < now.value(k).parts().len() implies !before.contains(
        #[trigger] now.value(k).parts()[i],
    ) by {
        if mid.contains(k) {
            assert(mid.fresh(before, k));
            assert(now.value(k) == mid.value(k));
        } else {
            assert(now.fresh(mid, k));
            let p = now.value(k).parts()[i];
            assert(!mid.contains(p));
        }
    }
}

impl Memory {
    /// Copies the slots `keys` and all that they are made of into new slots.
    /// Gives the keys of the copies, in order, or `None` where the arena
    /// filled up before the last copy was made.
    fn clone_parts(&mut self, keys: &Vec<ValueKey>, Ghost(bound): Ghost<nat>) -> (r: Option<
        Vec<ValueKey>,
    >)
        requires
            old(self).wf(),
            forall|i: int|
                0 <= i < keys@.len() ==> old(self).contains(#[trigger] keys@[i]) && old(self).rank_of(keys@[i]) < bound,
        ensures
            final(self).wf(),
            final(self).extends(old(self)),
            final(self).sealed_since(old(self)),
            match r {
                Some(out) => out@.len() == keys@.len() && forall|i: int|
                    0 <= i < keys@.len() ==> final(self).fresh(old(self), #[trigger] out@[i])
                        && alike(old(self), keys@[i], final(self), out@[i]),
                None => final(self).slots().len() >= ARENA_LIMIT,
            },
            keys@.len() == 0 ==> r is Some && *final(self) == *old(self),
        decreases bound, 0nat,
    {
        let mut out: Vec<ValueKey> = Vec::new();
        let mut i: usize = 0;
        while i < keys.len()
            invariant
                i <= keys.len(),
                old(self).wf(),
                self.wf(),
                self.extends(old(self)),
                self.sealed_since(old(self)),
                i == 0 ==> *self == *old(self),
                forall|j: int|
                    0 <= j < keys@.len() ==> old(self).contains(#[trigger] keys@[j]) && old(self).rank_of(keys@[j]) < bound,
                out@.len() == i,
                forall|j: int|
                    0 <= j < i ==> self.fresh(old(self), #[trigger] out@[j]) && alike(
                        old(self),
                        keys@[j],
                        self,
                        out@[j],
                    ),
            decreases keys.len() - i,
        {
            let ghost mid = *self;
            let ghost done = out@;
            let k = keys[i];
            assert(old(self).contains(keys@[i as int]));
            match self.key_deep_clone(k) {
                Some(c) => {
                    out.push(c);
                    proof {
                        lemma_sealed_chain(old(self), &mid, self);
                        lemma_alike_source_grows(old(self), &mid, k, self, c);
                        assert forall|j: int| 0 <= j < i + 1 implies self.fresh(
                            old(self),
                            #[trigger] out@[j],
                        ) && alike(old(self), keys@[j], self, out@[j]) by {
                            if j < i {
                                assert(out@[j] == done[j]);
                                assert(mid.fresh(old(self), done[j]));
                                lemma_alike_copy_grows(old(self), keys@[j], &mid, self, done[j]);
                            }
                        }
                    }
                },
                None => {
                    proof {
                        lemma_sealed_chain(old(self), &mid, self);
                    }
                    return None;
                },
            }
            i += 1;
        }
        Some(out)
    }

    /// Copies the slots `keys` and all that they are made of into new slots.
    /// Gives the keys of the copies, in order, or `None` where the arena
    /// filled up before the last copy was made.
    pub fn clone_keys(&mut self, keys: &Vec<ValueKey>) -> (r: Option<Vec<ValueKey>>)
        requires
            old(self).wf(),
            forall|i: int| 0 <= i < keys@.len() ==> old(self).contains(#[trigger] keys@[i]),
        ensures
            final(self).wf(),
            final(self).extends(old(self)),
            final(self).sealed_since(old(self)),
            match r {
                Some(out) => out@.len() == keys@.len() && forall|i: int|
                    0 <= i < keys@.len() ==> final(self).fresh(old(self), #[trigger] out@[i])
                        && alike(old(self), keys@[i], final(self), out@[i]),
                None => final(self).slots().len() >= ARENA_LIMIT,
            },
    {
        self.clone_parts(keys, Ghost(self.top@))
    }

    /// Copies slot `k` and all that it is made of into new slots and gives
    /// the key of the copy, or `None` where the arena filled up first.
    pub fn key_deep_clone(&mut self, k: ValueKey) -> (r: Option<ValueKey>)
        requires
            old(self).wf(),
            old(self).contains(k),
        ensures
            final(self).wf(),
            final(self).extends(old(self)),
            final(self).sealed_since(old(self)),
            match r {
                Some(c) => final(self).fresh(old(self), c) && alike(old(self), k, final(self), c),
                None => final(self).slots().len() >= ARENA_LIMIT,
            },
        decreases old(self).rank_of(k), 2nat,
    {
        match self.deep_clone_ranked(k) {
            Some(copy) => {
                let ghost mid = *self;
                let ghost cv = copy@;
                match self.try_insert(copy) {
                    Some(c) => {
                        proof {
                            assert(self.value(c) == cv.value);
                            lemma_sealed_chain_insert(old(self), &mid, self, c);
                            assert(alike(old(self), k, self, c)) by {
                                assert(old(self).admits(old(self).value(k)));
                                assert forall|i: int|
                                    0 <= i < old(self).value(k).parts().len() implies alike(
                                    old(self),
                                    old(self).value(k).parts()[i],
                                    self,
                                    #[trigger] self.value(c).parts()[i],
                                ) by {
                                    lemma_alike_copy_grows(
                                        old(self),
                                        old(self).value(k).parts()[i],
                                        &mid,
                                        self,
                                        cv.value.parts()[i],
                                    );
                                }
                            }
                        }
                        Some(c)
                    },
                    None => None,
                }
            },
            None => None,
        }
    }

    fn deep_clone_ranked(&mut self, k: ValueKey) -> (r: Option<StoredValue>)
        requires
            old(self).wf(),
            old(self).contains(k),
        ensures
            final(self).wf(),
            final(self).extends(old(self)),
            final(self).sealed_since(old(self)),
            match r {
                Some(v) => v@.def_area == old(self).slots()[k]@.def_area && new_copy_of(
                    old(self),
                    old(self).value(k),
                    final(self),
                    v@.value,
                ) && final(self).admits(v@.value),
                None => final(self).slots().len() >= ARENA_LIMIT,
            },
            old(self).value(k).parts().len() == 0 ==> r is Some && *final(self) == *old(self),
        decreases old(self).rank_of(k), 1nat,
    {
        let src = self.get(k).copy();
        proof {
            assert(old(self).admits(old(self).value(k)));
        }
        let parts = src.value.part_keys();
        match self.clone_parts(&parts, Ghost(old(self).rank_of(k))) {
            Some(fresh) => {
                let v = StoredValue { value: src.value.with_parts(&fresh), def_area: src.def_area };
                proof {
                    lemma_rekeyed(src@.value, fresh@);
                    assert forall|i: int| 0 <= i < v@.value.captured().len() implies self.contains(
                        #[trigger] v@.value.captured()[i],
                    ) by {
                        assert(old(self).contains(old(self).value(k).captured()[i]));
                    }
                }
                Some(v)
            },
            None => None,
        }
    }

    /// Copies all that slot `k` is made of into new slots and gives a copy of
    /// the slot's value over them, or `None` where the arena filled up first.
    pub fn deep_clone(&mut self, k: ValueKey) -> (r: Option<StoredValue>)
        requires
            old(self).wf(),
            old(self).contains(k),
        ensures
            final(self).wf(),
            final(self).extends(old(self)),
            final(self).sealed_since(old(self)),
            match r {
                Some(v) => v@.def_area == old(self).slots()[k]@.def_area && new_copy_of(
                    old(self),
                    old(self).value(k),
                    final(self),
                    v@.value,
                ) && final(self).admits(v@.value),
                None => final(self).slots().len() >= ARENA_LIMIT,
            },
            old(self).value(k).parts().len() == 0 ==> r is Some && *final(self) == *old(self),
    {
        self.deep_clone_ranked(k)
    }

    /// Copies all that `v` is made of into new slots and gives a copy of `v`
    /// over them, or `None` where the arena filled up first.
    pub fn deep_clone_value(&mut self, v: &Value) -> (r: Option<Value>)
        requires
            old(self).wf(),
            old(self).admits(v@),
        ensures
            final(self).wf(),
            final(self).extends(old(self)),
            final(self).sealed_since(old(self)),
            match r {
                Some(w) => new_copy_of(old(self), v@, final(self), w@) && final(self).admits(w@),
                None => final(self).slots().len() >= ARENA_LIMIT,
            },
            v@.parts().len() == 0 ==> r is Some && *final(self) == *old(self),
    {
        let parts = v.part_keys();
        match self.clone_parts(&parts, Ghost(old(self).top@)) {
            Some(fresh) => {
                let w = v.with_parts(&fresh);
                proof {
                    lemma_rekeyed(v@, fresh@);
                    assert forall|i: int| 0 <= i < w@.captured().len() implies self.contains(
                        #[trigger] w@.captured()[i],
                    ) by {
                        assert(old(self).contains(v@.captured()[i]));
                    }
                }
                Some(w)
            },
            None => None,
        }
    }
}

/// What was sealed since `before` stays so when the arena grows by slots
/// without parts.
pub proof fn lemma_sealed_chain_grow(before: &Memory, mid: &Memory, now: &Memory)
    requires
        mid.extends(before),
        now.extends(mid),
        mid.sealed_since(before),
        forall|k: ValueKey| now.fresh(mid, k) ==> #[trigger] now.value(k).parts().len() == 0,
    ensures
        now.sealed_since(before),
        now.extends(before),
{
    assert forall|k: ValueKey, i: int|
        now.fresh(before, k) && 0 <= i < now.value(k).parts().len() implies !before.contains(
        #[trigger] now.value(k).parts()[i],
    ) by {
        if mid.contains(k) {
            assert(mid.fresh(before, k));
            assert(now.value(k) == mid.value(k));
        } else {
            assert(now.fresh(mid, k));
        }
    }
}

/// Inserting a value made of slots added since `before` keeps what was added
/// since `before` sealed.
pub proof fn lemma_sealed_chain_insert(before: &Memory, mid: &Memory, now: &Memory, c: ValueKey)
    requires
        mid.extends(before),
        now.extends(mid),
        mid.sealed_since(before),
        !mid.contains(c),
        now.slots().dom() == mid.slots().dom().insert(c),
        forall|i: int|
            0 <= i < now.value(c).parts().len() ==> !before.contains(
                #[trigger] now.value(c).parts()[i],
            ),
    ensures
        now.sealed_since(before),
        now.extends(before),
{
    assert forall|k: ValueKey, i: int|
        now.fresh(before, k) && 0 <= i < now.value(k).parts().len() implies !before.contains(
        #[trigger] now.value(k).parts()[i],
    ) by {
        if k != c {
            assert(mid.contains(k));
            assert(mid.fresh(before, k));
            assert(now.value(k) == mid.value(k));
        }
    }
}

impl Memory {
    /// Puts `v`, whose parts were all added since `before`, into slot `k`,
    /// which `before` had.
    fn set_fresh(&mut self, k: ValueKey, v: StoredValue, Ghost(before): Ghost<Memory>)
        requires
            old(self).wf(),
            before.wf(),
            old(self).extends(&before),
            old(self).sealed_since(&before),
            before.contains(k),
            old(self).admits(v@.value),
            forall|i: int|
                0 <= i < v@.value.parts().len() ==> !before.contains(#[trigger] v@.value.parts()[i]),
        ensures
            final(self).wf(),
            final(self).slots() == old(self).slots().insert(k, v),
    {
        let ghost val = v@.value;
        arena_set(&mut self.arena, k, v);
        proof {
            let top = old(self).top@;
            let was = old(self).rank@;
            self.rank@ = Map::new(
                |x: ValueKey| was.dom().contains(x),
                |x: ValueKey|
                    if before.contains(x) {
                        was[x] + top
                    } else {
                        was[x]
                    },
            );
            self.top@ = top + top;
            assert(self.slots().dom() =~= old(self).slots().dom());
            assert forall|j: ValueKey| #[trigger] self.contains(j) implies self.rank@.dom().contains(
                j,
            ) && self.rank@[j] < self.top@ by {
                assert(old(self).contains(j));
            }
            assert forall|j: ValueKey| #[trigger] self.contains(j) implies self.admits(
                self.value(j),
            ) by {
                assert(old(self).contains(j));
                if j != k {
                    assert(old(self).admits(old(self).value(j)));
                }
            }
            assert forall|j: ValueKey, i: int|
                self.contains(j) && 0 <= i < self.value(j).parts().len() implies self.rank@[#[trigger] self.value(
                j,
            ).parts()[i]] < self.rank@[j] by {
                let p = self.value(j).parts()[i];
                assert(old(self).contains(j));
                if j == k {
                    assert(p == val.parts()[i]);
                    assert(old(self).contains(p));
                    assert(!before.contains(p));
                } else if before.contains(j) {
                    assert(old(self).value(j) == before.value(j));
                    assert(before.admits(before.value(j)));
                    assert(before.contains(p));
                    assert(old(self).admits(old(self).value(j)));
                } else {
                    assert(old(self).fresh(&before, j));
                    assert(old(self).admits(old(self).value(j)));
                    assert(old(self).contains(p));
                    assert(!before.contains(p));
                }
            }
        }
    }

    /// Overwrites slot `target` with a copy of slot `source`, made of new
    /// slots. Returns `false`, with `target` as it was, where the arena filled
    /// up first.
    pub fn assign(&mut self, target: ValueKey, source: ValueKey) -> (r: bool)
        requires
            old(self).wf(),
            old(self).contains(target),
            old(self).contains(source),
        ensures
            final(self).wf(),
            final(self).covers(old(self)),
            forall|k: ValueKey|
                old(self).contains(k) && k != target ==> #[trigger] final(self).slots()[k] == old(self).slots()[k],
            r ==> alike(old(self), source, final(self), target),
            r ==> forall|i: int|
                0 <= i < final(self).value(target).parts().len() ==> final(self).fresh(
                    old(self),
                    #[trigger] final(self).value(target).parts()[i],
                ),
            final(self).sealed_since(old(self)),
            !r ==> final(self).slots()[target] == old(self).slots()[target] && final(self).slots().len() >= ARENA_LIMIT,
    {
        match self.deep_clone(source) {
            Some(v) => {
                let ghost mid = *self;
                let ghost vv = v@;
                self.set_fresh(target, v, Ghost(*old(self)));
                proof {
                    assert(old(self).admits(old(self).value(source)));
                    assert(mid.contains(target));
                    assert(self.slots().dom() =~= mid.slots().dom());
                    assert forall|k: ValueKey, i: int|
                        self.fresh(old(self), k) && 0 <= i < self.value(k).parts().len() implies !old(self).contains(#[trigger] self.value(k).parts()[i]) by {
                        assert(mid.fresh(old(self), k));
                        assert(self.value(k) == mid.value(k));
                    }
                    assert forall|i: int| 0 <= i < self.value(target).parts().len() implies self.fresh(
                        old(self),
                        #[trigger] self.value(target).parts()[i],
                    ) by {
                        assert(mid.fresh(old(self), vv.value.parts()[i]));
                    }
                    assert forall|i: int|
                        0 <= i < old(self).value(source).parts().len() implies alike(
                        old(self),
                        old(self).value(source).parts()[i],
                        self,
                        #[trigger] self.value(target).parts()[i],
                    ) by {
                        let c = vv.value.parts()[i];
                        assert(mid.fresh(old(self), c));
                        lemma_alike_copy_kept(
                            old(self),
                            old(self).value(source).parts()[i],
                            &mid,
                            self,
                            c,
                            old(self),
                            target,
                        );
                    }
                }
                true
            },
            None => false,
        }
    }
}

/// A copy made of slots added since `before` stays one when a slot that
/// `before` had is overwritten.
pub proof fn lemma_alike_copy_kept(
    a: &Memory,
    ka: ValueKey,
    b: &Memory,
    b2: &Memory,
    kb: ValueKey,
    before: &Memory,
    target: ValueKey,
)
    requires
        a.wf(),
        a.contains(ka),
        alike(a, ka, b, kb),
        b.fresh(before, kb),
        b.sealed_since(before),
        before.contains(target),
        b2.slots().dom() == b.slots().dom(),
        forall|k: ValueKey| b.contains(k) && k != target ==> #[trigger] b2.slots()[k] == b.slots()[k],
    ensures
        alike(a, ka, b2, kb),
    decreases a.rank_of(ka),
{
    assert(a.admits(a.value(ka)));
    assert(b2.slots()[kb] == b.slots()[kb]);
    assert forall|i: int| 0 <= i < a.value(ka).parts().len() implies alike(
        a,
        a.value(ka).parts()[i],
        b2,
        #[trigger] b2.value(kb).parts()[i],
    ) by {
        let p = a.value(ka).parts()[i];
        let c = b.value(kb).parts()[i];
        assert(a.contains(p));
        assert(alike(a, p, b, c));
        assert(!before.contains(c));
        lemma_alike_copy_kept(a, p, b, b2, c, before, target);
    }
}

/// Whether slot `to` is slot `from` or a part of it, at any depth. The slots
/// that a macro captured are not among its parts.
pub open spec fn reaches(m: &Memory, from: ValueKey, to: ValueKey) -> bool
    decreases m.rank_of(from),
    when m.wf() && m.contains(from)
{
    from == to || exists|i: int|
        0 <= i < m.value(from).parts().len() && reaches(m, #[trigger] m.value(from).parts()[i], to)
}

/// What a slot added since `before` reaches was added since `before`, where
/// the additions are sealed.
pub proof fn lemma_reach_stays_fresh(before: &Memory, now: &Memory, from: ValueKey, to: ValueKey)
    requires
        now.wf(),
        now.sealed_since(before),
        now.fresh(before, from),
        reaches(now, from, to),
    ensures
        now.fresh(before, to),
    decreases now.rank_of(from),
{
    if from != to {
        let i = choose|i: int|
            0 <= i < now.value(from).parts().len() && reaches(
                now,
                #[trigger] now.value(from).parts()[i],
                to,
            );
        let p = now.value(from).parts()[i];
        assert(now.admits(now.value(from)));
        assert(now.contains(p));
        lemma_reach_stays_fresh(before, now, p, to);
    }
}

/// What a slot of `before` reaches is a slot of `before`, where the arena
/// only grew since.
pub proof fn lemma_reach_stays_old(before: &Memory, now: &Memory, from: ValueKey, to: ValueKey)
    requires
        before.wf(),
        now.wf(),
        now.extends(before),
        before.contains(from),
        reaches(now, from, to),
    ensures
        before.contains(to),
    decreases now.rank_of(from),
{
    if from != to {
        let i = choose|i: int|
            0 <= i < now.value(from).parts().len() && reaches(
                now,
                #[trigger] now.value(from).parts()[i],
                to,
            );
        let p = now.value(from).parts()[i];
        assert(now.value(from) == before.value(from));
        assert(before.admits(before.value(from)));
        assert(before.contains(p));
        lemma_reach_stays_old(before, now, p, to);
    }
}

/// A slot that the arena had before a deep copy and a slot that the copy
/// added reach no slot in common.
pub proof fn lemma_copy_shares_nothing(
    before: &Memory,
    now: &Memory,
    kept: ValueKey,
    added: ValueKey,
    x: ValueKey,
)
    requires
        before.wf(),
        now.wf(),
        now.extends(before),
        now.sealed_since(before),
        before.contains(kept),
        now.fresh(before, added),
    ensures
        !(reaches(now, kept, x) && reaches(now, added, x)),
{
    if reaches(now, kept, x) && reaches(now, added, x) {
        lemma_reach_stays_old(before, now, kept, x);
        lemma_reach_stays_fresh(before, now, added, x);
    }
}

/// Copying a copy gives a copy of the first: with `c1` a deep copy of `k`
/// and `c2` a deep copy of `c1`, the two copies are alike, and `c2` is a copy
/// of `k`.
pub proof fn lemma_deep_clone_idempotent(
    m0: &Memory,
    k: ValueKey,
    m1: &Memory,
    c1: ValueKey,
    m2: &Memory,
    c2: ValueKey,
)
    requires
        m0.wf(),
        m1.wf(),
        m2.wf(),
        m0.contains(k),
        m2.extends(m1),
        alike(m0, k, m1, c1),
        alike(m1, c1, m2, c2),
    ensures
        alike(m2, c1, m2, c2),
        alike(m0, k, m2, c2),
{
    assert(m1.contains(c1));
    lemma_alike_source_grows(m1, m2, c1, m2, c2);
    lemma_alike_transitive(m0, k, m1, c1, m2, c2);
}

} // verus!
