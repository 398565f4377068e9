//! The moves from which the instructions are made: taking a key off the
//! stack, putting one on, and storing a value.

use vstd::prelude::*;
use crate::contexts::{lemma_live_covers, Block, Context};
use crate::error::RuntimeError;
use crate::globals::Globals;
use crate::memory::{Memory, ARENA_LIMIT};
use crate::value::{StoredValue, ValueKey};

verus! {

impl Context {
    /// Whether `self` is `other` but for its stack.
    pub open spec fn same_but_stack(&self, other: &Context) -> bool {
        &&& self.group == other.group
        &&& self.id == other.id
        &&& self.pos == other.pos
        &&& self.vars == other.vars
        &&& self.block_stack == other.block_stack
        &&& self.returned == other.returned
    }

    /// Whether `self` is `other` but for its blocks.
    pub open spec fn same_but_blocks(&self, other: &Context) -> bool {
        &&& self.group == other.group
        &&& self.id == other.id
        &&& self.pos == other.pos
        &&& self.vars == other.vars
        &&& self.stack == other.stack
        &&& self.returned == other.returned
    }

    /// Whether `self` is `other` but for its stack and its blocks.
    pub open spec fn same_but_stack_and_blocks(&self, other: &Context) -> bool {
        &&& self.group == other.group
        &&& self.id == other.id
        &&& self.pos == other.pos
        &&& self.vars == other.vars
        &&& self.returned == other.returned
    }

    /// Takes the top key off the stack, if there is one.
    pub fn pop_key(&mut self) -> (r: Option<ValueKey>)
        ensures
            final(self).same_but_stack(old(self)),
            match r {
                Some(k) => old(self).stack@.len() > 0 && k == old(self).stack@.last() && final(self).stack@ == old(self).stack@.drop_last(),
                None => old(self).stack@.len() == 0 && final(self).stack@ == old(self).stack@,
            },
            forall|m: Memory|
                old(self).live(&m) ==> #[trigger] final(self).live(&m) && (r matches Some(k)
                    ==> m.contains(k)),
    {
        let ghost before = self.stack@;
        let r = self.stack.pop();
        proof {
            assert forall|m: Memory| old(self).live(&m) implies #[trigger] self.live(&m) && (r matches Some(
                k,
            ) ==> m.contains(k)) by {
                assert forall|i: int| 0 <= i < self.stack@.len() implies m.contains(
                    #[trigger] self.stack@[i],
                ) by {
                    assert(self.stack@[i] == before[i]);
                }
                if r is Some {
                    assert(m.contains(before[before.len() - 1]));
                }
            }
        }
        r
    }

    /// Puts `k` on top of the stack.
    pub fn push_key(&mut self, k: ValueKey)
        ensures
            final(self).same_but_stack(old(self)),
            final(self).stack@ == old(self).stack@.push(k),
            forall|m: Memory| old(self).live(&m) && m.contains(k) ==> #[trigger] final(self).live(&m),
    {
        self.stack.push(k);
        proof {
            assert forall|m: Memory| old(self).live(&m) && m.contains(k) implies #[trigger] self.live(
                &m,
            ) by {
                assert forall|i: int| 0 <= i < self.stack@.len() implies m.contains(
                    #[trigger] self.stack@[i],
                ) by {
                    if i < old(self).stack@.len() {
                        assert(self.stack@[i] == old(self).stack@[i]);
                    }
                }
            }
        }
    }

    /// Opens a block.
    pub fn push_block(&mut self, b: Block)
        ensures
            final(self).same_but_blocks(old(self)),
            final(self).block_stack@ == old(self).block_stack@.push(b),
            forall|m: Memory|
                old(self).live(&m) && (forall|j: int|
                    0 <= j < b.keys().len() ==> m.contains(#[trigger] b.keys()[j]))
                    ==> #[trigger] final(self).live(&m),
    {
        self.block_stack.push(b);
        proof {
            assert forall|m: Memory|
                old(self).live(&m) && (forall|j: int|
                    0 <= j < b.keys().len() ==> m.contains(
                        #[trigger] b.keys()[j],
                    )) implies #[trigger] self.live(&m) by {
                assert forall|i: int, j: int|
                    0 <= i < self.block_stack@.len() && 0 <= j
                        < self.block_stack@[i].keys().len() implies m.contains(
                    #[trigger] self.block_stack@[i].keys()[j],
                ) by {
                    if i < old(self).block_stack@.len() {
                        assert(self.block_stack@[i] == old(self).block_stack@[i]);
                    } else {
                        assert(self.block_stack@[i] == b);
                    }
                }
            }
        }
    }

    /// Closes the innermost block, if there is one.
    pub fn pop_block(&mut self) -> (r: Option<Block>)
        ensures
            final(self).same_but_blocks(old(self)),
            match r {
                Some(b) => old(self).block_stack@.len() > 0 && b == old(self).block_stack@.last()
                    && final(self).block_stack@ == old(self).block_stack@.drop_last(),
                None => old(self).block_stack@.len() == 0 && final(self).block_stack@ == old(self).block_stack@,
            },
            forall|m: Memory| old(self).live(&m) ==> #[trigger] final(self).live(&m),
    {
        let ghost before = self.block_stack@;
        let r = self.block_stack.pop();
        proof {
            assert forall|m: Memory| old(self).live(&m) implies #[trigger] self.live(&m) by {
                assert forall|i: int, j: int|
                    0 <= i < self.block_stack@.len() && 0 <= j
                        < self.block_stack@[i].keys().len() implies m.contains(
                    #[trigger] self.block_stack@[i].keys()[j],
                ) by {
                    assert(self.block_stack@[i] == before[i]);
                }
            }
        }
        r
    }
}

impl Globals {
    /// Stores `v` in a new slot of the arena and gives its key; `None`
    /// where the arena is full.
    pub fn store(&mut self, v: StoredValue) -> (r: Option<ValueKey>)
        requires
            old(self).wf(),
            old(self).memory.admits(v@.value),
        ensures
            final(self).wf(),
            final(self).follows(old(self)),
            final(self).memory.extends(&old(self).memory),
            final(self).arbitrary_ids == old(self).arbitrary_ids,
            final(self).objects == old(self).objects,
            final(self).triggers == old(self).triggers,
            final(self).printed == old(self).printed,
            final(self).calls == old(self).calls,
            final(self).call_counter == old(self).call_counter,
            match r {
                Some(k) => !old(self).memory.contains(k) && final(self).memory.slots() == old(self).memory.slots().insert(k, v),
                None => final(self).memory == old(self).memory && old(self).memory.slots().len()
                    >= ARENA_LIMIT,
            },
            forall|c: Context|
                c.live(&old(self).memory) ==> #[trigger] c.live(&final(self).memory),
    {
        let r = self.memory.try_insert(v);
        proof {
            assert forall|c: Context| c.live(&old(self).memory) implies #[trigger] c.live(
                &self.memory,
            ) by {
                lemma_live_covers(&c, &old(self).memory, &self.memory);
            }
        }
        r
    }
}

/// Stores `v` in a new slot and puts its key on the stack of `ctx`.
pub fn push_value(ctx: &mut Context, globals: &mut Globals, v: StoredValue) -> (r: Result<
    (),
    RuntimeError,
>)
    requires
        old(globals).wf(),
        old(ctx).live(&old(globals).memory),
        old(globals).memory.admits(v@.value),
    ensures
        final(globals).wf(),
        final(globals).follows(old(globals)),
        final(globals).memory.extends(&old(globals).memory),
        final(globals).arbitrary_ids == old(globals).arbitrary_ids,
        final(globals).objects == old(globals).objects,
        final(globals).triggers == old(globals).triggers,
        final(globals).printed == old(globals).printed,
        final(globals).calls == old(globals).calls,
        final(globals).call_counter == old(globals).call_counter,
        final(ctx).live(&final(globals).memory),
        final(ctx).same_but_stack(old(ctx)),
        match r {
            Ok(_) => final(ctx).stack@.len() == old(ctx).stack@.len() + 1 && final(ctx).stack@.drop_last()
                == old(ctx).stack@ && !old(globals).memory.contains(final(ctx).stack@.last())
                && final(globals).memory.slots() == old(globals).memory.slots().insert(
                final(ctx).stack@.last(),
                v,
            ),
            Err(e) => e@ == crate::error::RuntimeErrorView::MemoryExhausted && final(ctx).stack@
                == old(ctx).stack@ && final(globals).memory.slots().len() >= ARENA_LIMIT,
        },
        forall|c: Context|
            c.live(&old(globals).memory) ==> #[trigger] c.live(&final(globals).memory),
        forall|before: Memory|
            old(globals).memory.extends(&before) && old(globals).memory.sealed_since(&before) && (
            forall|i: int|
                0 <= i < v@.value.parts().len() ==> !before.contains(#[trigger] v@.value.parts()[i]))
                ==> #[trigger] final(globals).memory.sealed_since(&before),
        r is Err ==> final(globals).memory == old(globals).memory,
{
    let ghost parts = v@.value.parts();
    match globals.store(v) {
        Some(k) => {
            ctx.push_key(k);
            assert(ctx.stack@.drop_last() =~= old(ctx).stack@);
            proof {
                assert forall|before: Memory|
                    old(globals).memory.extends(&before) && old(globals).memory.sealed_since(&before)
                        && (forall|i: int|
                        0 <= i < parts.len() ==> !before.contains(
                            #[trigger] parts[i],
                        )) implies #[trigger] globals.memory.sealed_since(&before) by {
                    assert(globals.memory.slots().dom() =~= old(globals).memory.slots().dom().insert(
                        k,
                    ));
                    crate::memory::lemma_sealed_chain_insert(
                        &before,
                        &old(globals).memory,
                        &globals.memory,
                        k,
                    );
                }
            }
            Ok(())
        },
        None => Err(RuntimeError::MemoryExhausted),
    }
}

} // verus!
