//! What an instruction leaves for the interpreter to do, and what every
//! instruction keeps.

use vstd::prelude::*;
use crate::contexts::Context;
use crate::error::{RuntimeError, RuntimeErrorView};
use crate::globals::Globals;
use crate::value::{StoredValueView, ValueKey};

verus! {

/// How the context goes on after an instruction.
#[derive(Debug)]
pub enum Flow {
    /// At the next instruction.
    Next,
    /// At this index of the current function.
    Goto(usize),
    /// Not at all: it returned or ended. Its position stays.
    Halt,
    /// In a frame that the instruction pushed: at the position that the
    /// instruction set.
    Called,
    /// As two contexts: the context itself, which goes on at `outside`, and
    /// to its right `inside`, which goes on at `inside_at`.
    Fork { inside: Context, outside_at: usize, inside_at: usize },
}

/// Whether an instruction can run: the invariant of the shared state holds
/// and the context holds keys of slots only.
pub open spec fn ready(ctx: &Context, g: &Globals) -> bool {
    g.wf() && ctx.live(&g.memory)
}

/// Whether the state after an instruction is one that instructions but a
/// call leave: it can run the next one, the shared state only grew, no call
/// began, and the context is where it was, in its group, with as many
/// variables, and has not returned unless it had.
pub open spec fn kept(ctx0: &Context, g0: &Globals, ctx1: &Context, g1: &Globals) -> bool {
    &&& ready(ctx1, g1)
    &&& g1.follows(g0)
    &&& g1.calls == g0.calls
    &&& g1.call_counter == g0.call_counter
    &&& ctx1.pos == ctx0.pos
    &&& ctx1.group == ctx0.group
    &&& ctx1.returned == ctx0.returned
    &&& ctx1.vars@.len() == ctx0.vars@.len()
}

/// The stored value that the key `k` stands for.
pub open spec fn at(g: &Globals, k: ValueKey) -> StoredValueView {
    g.memory.slots()[k]@
}

/// Whether the stack of `ctx1` is that of `ctx0` with its top `n` keys
/// taken off and one key put on.
pub open spec fn replaced_top(ctx0: &Context, ctx1: &Context, n: int) -> bool {
    &&& ctx0.stack@.len() >= n
    &&& ctx1.stack@.len() == ctx0.stack@.len() - n + 1
    &&& ctx1.stack@.drop_last() == ctx0.stack@.take(ctx0.stack@.len() - n)
}

/// Whether the stack of `ctx1` is that of `ctx0` with its top `n` keys
/// taken off.
pub open spec fn dropped_top(ctx0: &Context, ctx1: &Context, n: int) -> bool {
    &&& ctx0.stack@.len() >= n
    &&& ctx1.stack@ == ctx0.stack@.take(ctx0.stack@.len() - n)
}

/// Whether the instruction, where it failed for want of room, found none:
/// the arena is full, or the numbers of the calls are used up.
pub open spec fn out_of_room(r: Result<Flow, RuntimeError>, g: &Globals) -> bool {
    r matches Err(e) ==> (e@ is MemoryExhausted ==> g.memory.slots().len()
        >= crate::memory::ARENA_LIMIT || g.call_counter.0 == usize::MAX)
}

/// Whether the instruction failed with the error `e`.
pub open spec fn fails(r: Result<Flow, RuntimeError>, e: RuntimeErrorView) -> bool {
    r matches Err(x) && x@ == e
}

/// Whether the instruction failed for want of an operand, a variable, a
/// constant or another thing that the bytecode should have seen to.
pub open spec fn fails_malformed(r: Result<Flow, RuntimeError>, func: usize, index: usize) -> bool {
    fails(r, RuntimeErrorView::MalformedBytecode { func, index })
}

/// Whether the instruction went well and the context goes on at the next
/// instruction.
pub open spec fn goes_on(r: Result<Flow, RuntimeError>) -> bool {
    r matches Ok(f) && f is Next
}

/// Whether the instruction went well and the context goes on at the index
/// `to`.
pub open spec fn goes_to(r: Result<Flow, RuntimeError>, to: usize) -> bool {
    r matches Ok(f) && f matches Flow::Goto(t) && t == to
}

/// Whether the instruction, where it failed, put nothing on the stack: the
/// stack is what is left of the one before, from the bottom up.
pub open spec fn nothing_pushed(r: Result<Flow, RuntimeError>, ctx0: &Context, ctx1: &Context) -> bool {
    r is Err ==> ctx1.stack@.len() <= ctx0.stack@.len() && forall|i: int|
        0 <= i < ctx1.stack@.len() ==> #[trigger] ctx1.stack@[i] == ctx0.stack@[i]
}

/// The key that stands `j` below the top of the stack.
pub open spec fn from_top(stack: Seq<ValueKey>, j: int) -> ValueKey {
    stack[stack.len() - 1 - j]
}

/// The error for bytecode that asks for what is not there.
pub fn malformed(func: usize, index: usize) -> (e: RuntimeError)
    ensures
        e@ == (RuntimeErrorView::MalformedBytecode { func, index }),
{
    RuntimeError::MalformedBytecode { func, index }
}

/// What follows what follows `a` follows `a`.
pub proof fn lemma_follows_chain(a: &Globals, b: &Globals, c: &Globals)
    requires
        b.follows(a),
        c.follows(b),
    ensures
        c.follows(a),
{
    assert forall|k: ValueKey| #[trigger] a.memory.contains(k) implies c.memory.contains(k) by {
        assert(b.memory.contains(k));
    }
    assert forall|i: int| 0 <= i < a.objects@.len() implies (#[trigger] c.objects@[i])@
        == a.objects@[i]@ by {
        assert(b.objects@[i]@ == a.objects@[i]@);
    }
    assert forall|i: int| 0 <= i < a.triggers@.len() implies (#[trigger] c.triggers@[i])@
        == a.triggers@[i]@ by {
        assert(b.triggers@[i]@ == a.triggers@[i]@);
    }
    assert forall|i: int| 0 <= i < a.printed@.len() implies (#[trigger] c.printed@[i])@
        == a.printed@[i]@ by {
        assert(b.printed@[i]@ == a.printed@[i]@);
    }
}

/// A state follows itself.
pub proof fn lemma_follows_self(a: &Globals)
    ensures
        a.follows(a),
{
}

} // verus!
