//! Contexts, the logical threads of a run, and the tree that holds them.

use vstd::prelude::*;
use crate::bytecode::{Code, InstrNum};
use crate::calls::CallId;
use crate::globals::Globals;
use crate::ids::Id;
use crate::memory::{
    alike, lemma_alike_copy_grows, lemma_alike_source_grows, lemma_copy_shares_nothing,
    lemma_sealed_chain, reaches, Memory, ARENA_LIMIT,
};
use crate::sources::CodeArea;
use crate::value::{copy_fields, copy_keys, ValueKey};

verus! {

/// How a context returned: by a `return`, or by running off the end.
#[derive(Clone, Copy, Debug, PartialEq, Eq, Structural)]
pub enum ReturnType {
    Explicit,
    Implicit,
}

/// The state of a walk through a value: what is walked and how far the walk
/// has come.
#[derive(Debug)]
pub enum ValueIter {
    Array(Vec<ValueKey>, usize),
    Dict { dict_area: CodeArea, for_area: CodeArea, idx: usize, elems: Vec<(String, ValueKey)> },
    String(String, CodeArea, usize),
}

/// The mathematical value of a [`ValueIter`].
pub enum ValueIterView {
    Array(Seq<ValueKey>, usize),
    Dict { dict_area: CodeArea, for_area: CodeArea, idx: usize, elems: Seq<(Seq<char>, ValueKey)> },
    String(Seq<char>, CodeArea, usize),
}

impl View for ValueIter {
    type V = ValueIterView;

    open spec fn view(&self) -> ValueIterView {
        match self {
            ValueIter::Array(v, i) => ValueIterView::Array(v@, *i),
            ValueIter::Dict { dict_area, for_area, idx, elems } => ValueIterView::Dict {
                dict_area: *dict_area,
                for_area: *for_area,
                idx: *idx,
                elems: elems@.map_values(|e: (String, ValueKey)| (e.0@, e.1)),
            },
            ValueIter::String(s, a, i) => ValueIterView::String(s@, *a, *i),
        }
    }
}

impl ValueIter {
    /// The keys that the walk holds.
    pub open spec fn keys(&self) -> Seq<ValueKey> {
        match self {
            ValueIter::Array(v, _) => v@,
            ValueIter::Dict { elems, .. } => elems@.map_values(|e: (String, ValueKey)| e.1),
            ValueIter::String(..) => Seq::<ValueKey>::empty(),
        }
    }

    /// Whether every key that the walk holds is the key of a slot of `m`.
    pub open spec fn live(&self, m: &Memory) -> bool {
        forall|i: int| 0 <= i < self.keys().len() ==> m.contains(#[trigger] self.keys()[i])
    }

    /// How far the walk has come.
    pub open spec fn at(&self) -> usize {
        match self {
            ValueIter::Array(_, i) => *i,
            ValueIter::Dict { idx, .. } => *idx,
            ValueIter::String(_, _, i) => *i,
        }
    }

    /// How many elements the walk goes through.
    pub open spec fn length(&self) -> nat {
        match self {
            ValueIter::Array(v, _) => v@.len(),
            ValueIter::Dict { elems, .. } => elems@.len(),
            ValueIter::String(s, _, _) => s@.len(),
        }
    }

    /// A copy of the walk: of the same value, at the same place.
    pub fn copy(&self) -> (r: ValueIter)
        ensures
            r@ == self@,
            r.keys() == self.keys(),
            r.at() == self.at(),
            r.length() == self.length(),
    {
        match self {
            ValueIter::Array(v, i) => ValueIter::Array(copy_keys(v), *i),
            ValueIter::Dict { dict_area, for_area, idx, elems } => {
                let r = ValueIter::Dict {
                    dict_area: *dict_area,
                    for_area: *for_area,
                    idx: *idx,
                    elems: copy_fields(elems),
                };
                assert(r.keys() =~= self.keys());
                assert(r@->Dict_elems =~= self@->Dict_elems);
                r
            },
            ValueIter::String(s, a, i) => ValueIter::String(s.clone(), *a, *i),
        }
    }
}

/// A block that a context is inside of: a `for` with its walk, or a `try`
/// with the index of its handler.
#[derive(Debug)]
pub enum Block {
    For(ValueIter),
    Try(usize),
}

/// The mathematical value of a [`Block`].
pub enum BlockView {
    For(ValueIterView),
    Try(usize),
}

impl View for Block {
    type V = BlockView;

    open spec fn view(&self) -> BlockView {
        match self {
            Block::For(it) => BlockView::For(it@),
            Block::Try(t) => BlockView::Try(*t),
        }
    }
}

impl Block {
    /// The keys that the block holds.
    pub open spec fn keys(&self) -> Seq<ValueKey> {
        match self {
            Block::For(it) => it.keys(),
            Block::Try(_) => Seq::<ValueKey>::empty(),
        }
    }

    /// A copy of the block: of the same kind and the same value.
    pub fn copy(&self) -> (r: Block)
        ensures
            r@ == self@,
            r.keys() == self.keys(),
            r is Try == self is Try,
            self matches Block::Try(t) ==> r == Block::Try(*t),
    {
        match self {
            Block::For(it) => Block::For(it.copy()),
            Block::Try(t) => Block::Try(*t),
        }
    }
}

/// A call frame: the function, the index of the instruction, and the call.
pub type Frame = (usize, usize, CallId);

/// One logical thread of a run.
#[derive(Debug)]
pub struct Context {
    /// The group that the triggers of this context are tagged with.
    pub group: Id,
    /// The path of the context through the splits: `a` or `b` for each.
    pub id: String,
    /// The call frames, the current one last.
    pub pos: Vec<Frame>,
    /// For each variable of the program the keys of its values, that of the
    /// innermost scope last.
    pub vars: Vec<Vec<ValueKey>>,
    /// The operand stack.
    pub stack: Vec<ValueKey>,
    /// The blocks that the context is inside of, the innermost last.
    pub block_stack: Vec<Block>,
    /// Whether and how the context returned.
    pub returned: Option<ReturnType>,
}

impl Context {
    /// Whether every key on the stack, in a variable and in a block is the
    /// key of a slot of `m`.
    pub open spec fn live(&self, m: &Memory) -> bool {
        &&& forall|i: int| 0 <= i < self.stack@.len() ==> m.contains(#[trigger] self.stack@[i])
        &&& forall|i: int, j: int|
            0 <= i < self.vars@.len() && 0 <= j < self.vars@[i]@.len() ==> m.contains(
                #[trigger] self.vars@[i]@[j],
            )
        &&& forall|i: int, j: int|
            0 <= i < self.block_stack@.len() && 0 <= j < self.block_stack@[i].keys().len()
                ==> m.contains(#[trigger] self.block_stack@[i].keys()[j])
    }

    /// Whether the context has no frame left: whether it is dead.
    pub open spec fn finished(&self) -> bool {
        self.pos@.len() == 0
    }

    /// The context at the start of a run: in group 0, with the path `O`,
    /// at the first instruction of function 0, with `var_count` variables
    /// that have no value yet.
    pub fn new(var_count: usize) -> (r: Context)
        ensures
            r.group == Id::Specific(0),
            r.id@ == "O"@,
            r.pos@ == seq![(0usize, 0usize, CallId(0))],
            r.vars@.len() == var_count,
            forall|i: int| 0 <= i < var_count ==> (#[trigger] r.vars@[i])@.len() == 0,
            r.stack@.len() == 0,
            r.block_stack@.len() == 0,
            r.returned is None,
    {
        let mut vars: Vec<Vec<ValueKey>> = Vec::new();
        let mut i: usize = 0;
        while i < var_count
            invariant
                i <= var_count,
                vars@.len() == i,
                forall|j: int| 0 <= j < i ==> (#[trigger] vars@[j])@.len() == 0,
            decreases var_count - i,
        {
            vars.push(Vec::new());
            i += 1;
        }
        let mut pos: Vec<Frame> = Vec::new();
        pos.push((0, 0, CallId(0)));
        Context {
            group: Id::Specific(0),
            id: String::from_str("O"),
            pos,
            vars,
            stack: Vec::new(),
            block_stack: Vec::new(),
            returned: None,
        }
    }

    /// The current frame.
    pub fn pos(&mut self) -> (r: &mut Frame)
        requires
            old(self).pos@.len() > 0,
        ensures
            *r == old(self).pos@.last(),
            final(self).pos@ == old(self).pos@.update(old(self).pos@.len() - 1, *final(r)),
            final(self).group == old(self).group,
            final(self).id == old(self).id,
            final(self).vars == old(self).vars,
            final(self).stack == old(self).stack,
            final(self).block_stack == old(self).block_stack,
            final(self).returned == old(self).returned,
    {
        let n = self.pos.len();
        &mut self.pos[n - 1]
    }

    /// Tags the triggers of the context with `group` from now on.
    pub fn set_group(&mut self, group: Id)
        ensures
            *final(self) == (Context { group, ..*old(self) }),
    {
        self.group = group;
    }

    /// Ends the context: it has no frame left.
    pub fn yeet(&mut self)
        ensures
            final(self).finished(),
            final(self).group == old(self).group,
            final(self).id == old(self).id,
            final(self).vars == old(self).vars,
            final(self).stack == old(self).stack,
            final(self).block_stack == old(self).block_stack,
            final(self).returned == old(self).returned,
    {
        self.pos = Vec::new();
    }

    /// The keys of the values of the variables.
    pub open spec fn vars_view(&self) -> Seq<Seq<ValueKey>> {
        self.vars@.map_values(|v: Vec<ValueKey>| v@)
    }

    /// The variables with the innermost value of each of `ids` taken off. A
    /// variable that is not there, or has no value, is passed over.
    pub open spec fn without_scope(vars: Seq<Seq<ValueKey>>, ids: Seq<InstrNum>) -> Seq<Seq<ValueKey>>
        decreases ids.len(),
    {
        if ids.len() == 0 {
            vars
        } else {
            let rest = Context::without_scope(vars, ids.drop_last());
            let i = ids.last() as int;
            if i < rest.len() && rest[i].len() > 0 {
                rest.update(i, rest[i].drop_last())
            } else {
                rest
            }
        }
    }

    /// The variables once function `func` is left: without the innermost
    /// values of the variables that it declares and of those that it
    /// captures.
    pub open spec fn left_scope(vars: Seq<Seq<ValueKey>>, func: usize, code: &Code) -> Seq<Seq<ValueKey>> {
        if func < code.bytecode_funcs@.len() {
            Context::without_scope(
                Context::without_scope(vars, code.bytecode_funcs@[func as int].scoped_var_ids@),
                code.bytecode_funcs@[func as int].capture_ids@,
            )
        } else {
            vars
        }
    }

    /// The variables once the frames are settled as [`Context::settled`]
    /// has it: each function that is returned from is left.
    pub open spec fn settled_vars(
        pos: Seq<Frame>,
        vars: Seq<Seq<ValueKey>>,
        code: &Code,
        calls: Set<usize>,
    ) -> Seq<Seq<ValueKey>>
        decreases pos.len(),
    {
        if pos.len() == 0 {
            vars
        } else if pos.last().1 < code.len_of(pos.last().0) {
            vars
        } else if !calls.contains(pos.last().2.0) {
            vars
        } else if pos.len() == 1 {
            Context::left_scope(vars, pos.last().0, code)
        } else {
            let rest = pos.drop_last();
            Context::settled_vars(
                rest.update(
                    rest.len() - 1,
                    (rest.last().0, Context::next_index(rest.last().1, 1), rest.last().2),
                ),
                Context::left_scope(vars, pos.last().0, code),
                code,
                calls,
            )
        }
    }

    /// Leaves a scope: takes the innermost value of each of the variables
    /// `vars` off. A variable that the context does not have, or that has no
    /// value, is passed over.
    pub fn pop_vars(&mut self, vars: &[InstrNum])
        ensures
            final(self).vars_view() == Context::without_scope(old(self).vars_view(), vars@),
            final(self).group == old(self).group,
            final(self).id == old(self).id,
            final(self).pos == old(self).pos,
            final(self).stack == old(self).stack,
            final(self).block_stack == old(self).block_stack,
            final(self).returned == old(self).returned,
            final(self).vars@.len() == old(self).vars@.len(),
            forall|m: Memory| old(self).live(&m) ==> final(self).live(&m),
    {
        let mut k: usize = 0;
        assert(vars@.take(0) =~= Seq::empty());
        while k < vars.len()
            invariant
                k <= vars.len(),
                self.vars_view() == Context::without_scope(
                    old(self).vars_view(),
                    vars@.take(k as int),
                ),
                self.group == old(self).group,
                self.id == old(self).id,
                self.pos == old(self).pos,
                self.stack == old(self).stack,
                self.block_stack == old(self).block_stack,
                self.returned == old(self).returned,
                self.vars@.len() == old(self).vars@.len(),
                forall|m: Memory| old(self).live(&m) ==> self.live(&m),
            decreases vars.len() - k,
        {
            assert(vars@.take(k + 1).drop_last() =~= vars@.take(k as int));
            assert(vars@.take(k + 1).last() == vars@[k as int]);
            let i = vars[k] as usize;
            let ghost before = self.vars@;
            let ghost was = *self;
            if i < self.vars.len() {
                let ghost held = self.vars@[i as int]@;
                self.vars[i].pop();
                assert(self.vars@.map_values(|v: Vec<ValueKey>| v@) =~= before.map_values(
                    |v: Vec<ValueKey>| v@,
                ).update(
                    i as int,
                    if held.len() > 0 {
                        held.drop_last()
                    } else {
                        held
                    },
                ));
                assert(before.map_values(|v: Vec<ValueKey>| v@)[i as int] == held);
                proof {
                    if held.len() == 0 {
                        assert(self.vars@.map_values(|v: Vec<ValueKey>| v@) =~= before.map_values(
                            |v: Vec<ValueKey>| v@,
                        ));
                    }
                }
                assert forall|m: Memory| was.live(&m) implies self.live(&m) by {
                    assert forall|a: int, b: int|
                        0 <= a < self.vars@.len() && 0 <= b < self.vars@[a]@.len() implies m.contains(
                        #[trigger] self.vars@[a]@[b],
                    ) by {
                        assert(self.vars@[a]@[b] == was.vars@[a]@[b]);
                    }
                }
            }
            k += 1;
        }
        assert(vars@.take(vars.len() as int) =~= vars@);
    }

    /// Makes `k` the innermost value of the variable `id`.
    pub fn replace_var(&mut self, id: InstrNum, k: ValueKey)
        requires
            id < old(self).vars@.len(),
            old(self).vars@[id as int]@.len() > 0,
        ensures
            final(self).vars@.len() == old(self).vars@.len(),
            final(self).vars@[id as int]@ == old(self).vars@[id as int]@.update(
                old(self).vars@[id as int]@.len() - 1,
                k,
            ),
            forall|i: int|
                0 <= i < old(self).vars@.len() && i != id ==> #[trigger] final(self).vars@[i]
                    == old(self).vars@[i],
            final(self).group == old(self).group,
            final(self).id == old(self).id,
            final(self).pos == old(self).pos,
            final(self).stack == old(self).stack,
            final(self).block_stack == old(self).block_stack,
            final(self).returned == old(self).returned,
            forall|m: Memory| old(self).live(&m) && m.contains(k) ==> final(self).live(&m),
    {
        let n = self.vars[id as usize].len();
        self.vars[id as usize].set(n - 1, k);
        assert forall|m: Memory| old(self).live(&m) && m.contains(k) implies self.live(&m) by {
            assert forall|a: int, b: int|
                0 <= a < self.vars@.len() && 0 <= b < self.vars@[a]@.len() implies m.contains(
                #[trigger] self.vars@[a]@[b],
            ) by {
                if a == id && b == n - 1 {
                } else {
                    assert(self.vars@[a]@[b] == old(self).vars@[a]@[b]);
                }
            }
        }
    }

    /// The key of the innermost value of the variable `id`.
    pub fn get_var(&self, id: InstrNum) -> (k: ValueKey)
        requires
            id < self.vars@.len(),
            self.vars@[id as int]@.len() > 0,
        ensures
            k == self.vars@[id as int]@.last(),
    {
        let n = self.vars[id as usize].len();
        self.vars[id as usize][n - 1]
    }

    /// Whether the variable `id` has a value.
    pub fn has_var(&self, id: InstrNum) -> (r: bool)
        ensures
            r == (id < self.vars@.len() && self.vars@[id as int]@.len() > 0),
    {
        (id as usize) < self.vars.len() && self.vars[id as usize].len() > 0
    }

    /// Assigns to the variable `id` a deep copy of the value in slot
    /// `source`. Returns `false`, with the variable as it was, where the arena
    /// filled up first.
    pub fn set_var(&self, id: InstrNum, source: ValueKey, globals: &mut Globals) -> (r: bool)
        requires
            old(globals).wf(),
            id < self.vars@.len(),
            self.vars@[id as int]@.len() > 0,
            old(globals).memory.contains(self.vars@[id as int]@.last()),
            old(globals).memory.contains(source),
        ensures
            final(globals).wf(),
            final(globals).follows(old(globals)),
            final(globals).arbitrary_ids == old(globals).arbitrary_ids,
            final(globals).objects == old(globals).objects,
            final(globals).triggers == old(globals).triggers,
            final(globals).printed == old(globals).printed,
            final(globals).calls == old(globals).calls,
            final(globals).call_counter == old(globals).call_counter,
            r ==> alike(
                &old(globals).memory,
                source,
                &final(globals).memory,
                self.vars@[id as int]@.last(),
            ),
            forall|k: ValueKey|
                old(globals).memory.contains(k) && (k != self.vars@[id as int]@.last() || !r)
                    ==> #[trigger] final(globals).memory.slots()[k] == old(globals).memory.slots()[k],
            r ==> forall|i: int|
                0 <= i < final(globals).memory.value(self.vars@[id as int]@.last()).parts().len()
                    ==> final(globals).memory.fresh(
                    &old(globals).memory,
                    #[trigger] final(globals).memory.value(self.vars@[id as int]@.last()).parts()[i],
                ),
            final(globals).memory.sealed_since(&old(globals).memory),
            !r ==> final(globals).memory.slots().len() >= crate::memory::ARENA_LIMIT,
    {
        let key = self.get_var(id);
        globals.memory.assign(key, source)
    }

    /// Enters a scope: gives each of the variables `vars` a new innermost
    /// value, the empty one. A variable that the context does not have is
    /// passed over. Returns `false` where the arena filled up first.
    pub fn push_vars(&mut self, vars: &[InstrNum], code: &Code, globals: &mut Globals) -> (r: bool)
        requires
            old(globals).wf(),
            old(self).live(&old(globals).memory),
        ensures
            final(globals).wf(),
            final(globals).follows(old(globals)),
            final(globals).memory.extends(&old(globals).memory),
            final(globals).memory.sealed_since(&old(globals).memory),
            final(globals).arbitrary_ids == old(globals).arbitrary_ids,
            final(globals).objects == old(globals).objects,
            final(globals).triggers == old(globals).triggers,
            final(globals).printed == old(globals).printed,
            final(globals).calls == old(globals).calls,
            final(globals).call_counter == old(globals).call_counter,
            final(self).live(&final(globals).memory),
            final(self).vars@.len() == old(self).vars@.len(),
            final(self).group == old(self).group,
            final(self).id == old(self).id,
            final(self).pos == old(self).pos,
            final(self).stack == old(self).stack,
            final(self).block_stack == old(self).block_stack,
            final(self).returned == old(self).returned,
            r ==> forall|j: int|
                0 <= j < vars@.len() && vars@[j] < old(self).vars@.len() ==> (#[trigger] final(self).vars@[vars@[j] as int])@.len() > 0,
            r ==> scope_entered(
                old(self).vars_view(),
                final(self).vars_view(),
                vars@,
                &old(globals).memory,
                &final(globals).memory,
                code,
            ),
            !r ==> final(globals).memory.slots().len() >= crate::memory::ARENA_LIMIT,
    {
        let mut k: usize = 0;
        assert(vars@.take(0) =~= Seq::empty());
        while k < vars.len()
            invariant
                k <= vars.len(),
                globals.wf(),
                globals.follows(old(globals)),
                globals.memory.extends(&old(globals).memory),
                globals.memory.sealed_since(&old(globals).memory),
                globals.arbitrary_ids == old(globals).arbitrary_ids,
                globals.objects == old(globals).objects,
                globals.triggers == old(globals).triggers,
                globals.printed == old(globals).printed,
                globals.calls == old(globals).calls,
                globals.call_counter == old(globals).call_counter,
                self.live(&globals.memory),
                self.vars@.len() == old(self).vars@.len(),
                self.group == old(self).group,
                self.id == old(self).id,
                self.pos == old(self).pos,
                self.stack == old(self).stack,
                self.block_stack == old(self).block_stack,
                self.returned == old(self).returned,
                forall|j: int|
                    0 <= j < k && vars@[j] < old(self).vars@.len() ==> (#[trigger] self.vars@[vars@[j] as int])@.len()
                        > 0,
                scope_entered(
                    old(self).vars_view(),
                    self.vars_view(),
                    vars@.take(k as int),
                    &old(globals).memory,
                    &globals.memory,
                    code,
                ),
            decreases vars.len() - k,
        {
            let i = vars[k] as usize;
            assert(vars@.take(k + 1).drop_last() =~= vars@.take(k as int));
            assert(vars@.take(k + 1).last() == vars@[k as int]);
            let ghost mid = *globals;
            let ghost was = *self;
            if i < self.vars.len() {
                let v = code.dummy_value();
                match globals.memory.try_insert(v) {
                    Some(key) => {
                        self.vars[i].push(key);
                        proof {
                            assert forall|a: int, b: int|
                                0 <= a < self.vars@.len() && 0 <= b < self.vars@[a]@.len() implies globals.memory.contains(
                                #[trigger] self.vars@[a]@[b],
                            ) by {
                                if a == i && b == self.vars@[a]@.len() - 1 {
                                } else {
                                    assert(self.vars@[a]@[b] == was.vars@[a]@[b]);
                                    assert(mid.memory.contains(was.vars@[a]@[b]));
                                }
                            }
                            assert forall|a: int| 0 <= a < self.stack@.len() implies globals.memory.contains(
                                #[trigger] self.stack@[a],
                            ) by {
                                assert(mid.memory.contains(was.stack@[a]));
                            }
                            assert forall|a: int, b: int|
                                0 <= a < self.block_stack@.len() && 0 <= b
                                    < self.block_stack@[a].keys().len() implies globals.memory.contains(
                                #[trigger] self.block_stack@[a].keys()[b],
                            ) by {
                                assert(mid.memory.contains(was.block_stack@[a].keys()[b]));
                            }
                            assert forall|j: int|
                                0 <= j < k + 1 && vars@[j] < old(self).vars@.len() implies (#[trigger] self.vars@[vars@[j] as int])@.len()
                                > 0 by {
                                if vars@[j] as int != i && j < k {
                                    assert(self.vars@[vars@[j] as int] == was.vars@[vars@[j] as int]);
                                }
                            }
                            assert(self.vars_view() =~= was.vars_view().update(
                                i as int,
                                was.vars_view()[i as int].push(key),
                            ));
                            assert(blank(&old(globals).memory, &globals.memory, key, code));
                            assert(globals.memory.slots().dom() =~= mid.memory.slots().dom().insert(
                                key,
                            ));
                            crate::memory::lemma_sealed_chain_insert(
                                &old(globals).memory,
                                &mid.memory,
                                &globals.memory,
                                key,
                            );
                        }
                    },
                    None => {
                        return false;
                    },
                }
            }
            proof {
                let first = old(self).vars_view();
                let now = self.vars_view();
                assert forall|v: int, b: int|
                    0 <= v < first.len() && first[v].len() <= b < now[v].len() implies blank(
                    &old(globals).memory,
                    &globals.memory,
                    #[trigger] now[v][b],
                    code,
                ) by {
                    if b < was.vars_view()[v].len() {
                        assert(blank(&old(globals).memory, &mid.memory, was.vars_view()[v][b], code));
                    }
                }
            }
            k += 1;
        }
        assert(vars@.take(vars.len() as int) =~= vars@);
        true
    }
}

/// How often `v` stands in `ids`.
pub open spec fn occurrences(ids: Seq<InstrNum>, v: int) -> nat
    decreases ids.len(),
{
    if ids.len() == 0 {
        0
    } else {
        let rest = occurrences(ids.drop_last(), v);
        if ids.last() == v {
            rest + 1
        } else {
            rest
        }
    }
}

/// Whether slot `k` of `m` was added since `before` and holds what a
/// variable holds before it is assigned: the empty value, defined nowhere.
pub open spec fn blank(before: &Memory, m: &Memory, k: ValueKey, code: &Code) -> bool {
    &&& m.fresh(before, k)
    &&& m.slots()[k]@.value == crate::value::ValueView::Empty
    &&& m.slots()[k]@.def_area == (CodeArea { source: code.source, start: 0, end: 0 })
}

/// Whether the variables `now` are the variables `was` with a scope
/// entered: each variable has one more value for each time it stands in
/// `ids`, above those that it had, and each of the new values is blank.
pub open spec fn scope_entered(
    was: Seq<Seq<ValueKey>>,
    now: Seq<Seq<ValueKey>>,
    ids: Seq<InstrNum>,
    before: &Memory,
    m: &Memory,
    code: &Code,
) -> bool {
    &&& now.len() == was.len()
    &&& forall|v: int|
        0 <= v < was.len() ==> (#[trigger] now[v]).len() == was[v].len() + occurrences(ids, v)
    &&& forall|v: int, b: int|
        0 <= v < was.len() && 0 <= b < was[v].len() ==> (#[trigger] now[v][b]) == was[v][b]
    &&& forall|v: int, b: int|
        0 <= v < was.len() && was[v].len() <= b < now[v].len() ==> blank(
            before,
            m,
            #[trigger] now[v][b],
            code,
        )
}

/// A context whose keys are keys of slots of an arena keeps them so in an
/// arena that has every key of the first.
pub proof fn lemma_live_covers(c: &Context, m: &Memory, m2: &Memory)
    requires
        c.live(m),
        m2.covers(m),
    ensures
        c.live(m2),
{
    assert forall|i: int| 0 <= i < c.stack@.len() implies m2.contains(#[trigger] c.stack@[i]) by {
        assert(m.contains(c.stack@[i]));
    }
    assert forall|i: int, j: int|
        0 <= i < c.vars@.len() && 0 <= j < c.vars@[i]@.len() implies m2.contains(
        #[trigger] c.vars@[i]@[j],
    ) by {
        assert(m.contains(c.vars@[i]@[j]));
    }
    assert forall|i: int, j: int|
        0 <= i < c.block_stack@.len() && 0 <= j < c.block_stack@[i].keys().len() implies m2.contains(
        #[trigger] c.block_stack@[i].keys()[j],
    ) by {
        assert(m.contains(c.block_stack@[i].keys()[j]));
    }
}

impl Context {
    /// The frames once the current one is at instruction `i`: where that is
    /// past the end of its function, the frame is given up and the one
    /// below moves on by one, and so on; where the call of a frame given up
    /// is no longer going on, no frame is left.
    pub open spec fn settled(pos: Seq<Frame>, code: &Code, calls: Set<usize>) -> Seq<Frame>
        decreases pos.len(),
    {
        if pos.len() == 0 {
            pos
        } else if pos.last().1 < code.len_of(pos.last().0) {
            pos
        } else if !calls.contains(pos.last().2.0) {
            Seq::<Frame>::empty()
        } else if pos.len() == 1 {
            Seq::<Frame>::empty()
        } else {
            let rest = pos.drop_last();
            Context::settled(
                rest.update(
                    rest.len() - 1,
                    (rest.last().0, Context::next_index(rest.last().1, 1), rest.last().2),
                ),
                code,
                calls,
            )
        }
    }

    /// The index `n` instructions on; the largest index where that is out
    /// of range.
    pub open spec fn next_index(i: usize, n: usize) -> usize {
        if i + n > usize::MAX {
            usize::MAX
        } else {
            (i + n) as usize
        }
    }

    /// Moves the current frame to instruction `i`, and returns from the
    /// function where that is past its end.
    pub fn advance_to(&mut self, code: &Code, i: usize, globals: &Globals)
        requires
            old(self).pos@.len() > 0,
        ensures
            final(self).pos@ == Context::settled(
                old(self).pos@.update(
                    old(self).pos@.len() - 1,
                    (old(self).pos@.last().0, i, old(self).pos@.last().2),
                ),
                code,
                globals.calls@,
            ),
            final(self).group == old(self).group,
            final(self).id == old(self).id,
            final(self).stack == old(self).stack,
            final(self).block_stack == old(self).block_stack,
            final(self).returned == old(self).returned,
            final(self).vars@.len() == old(self).vars@.len(),
            final(self).vars_view() == Context::settled_vars(
                old(self).pos@.update(
                    old(self).pos@.len() - 1,
                    (old(self).pos@.last().0, i, old(self).pos@.last().2),
                ),
                old(self).vars_view(),
                code,
                globals.calls@,
            ),
            forall|m: Memory| old(self).live(&m) ==> final(self).live(&m),
        decreases old(self).pos@.len(), 1nat,
    {
        let n = self.pos.len();
        let (func, _, call_id) = self.pos[n - 1];
        self.pos.set(n - 1, (func, i, call_id));
        if i >= code.func_len(func) {
            if !globals.calls.contains(call_id) {
                self.yeet();
                return ;
            }
            self.return_out(code, globals);
        }
    }

    /// Moves the current frame on by `n` instructions, and returns from the
    /// function where that is past its end.
    pub fn advance_by(&mut self, code: &Code, n: usize, globals: &Globals)
        requires
            old(self).pos@.len() > 0,
        ensures
            final(self).pos@ == Context::settled(
                old(self).pos@.update(
                    old(self).pos@.len() - 1,
                    (
                        old(self).pos@.last().0,
                        Context::next_index(old(self).pos@.last().1, n),
                        old(self).pos@.last().2,
                    ),
                ),
                code,
                globals.calls@,
            ),
            final(self).group == old(self).group,
            final(self).id == old(self).id,
            final(self).stack == old(self).stack,
            final(self).block_stack == old(self).block_stack,
            final(self).returned == old(self).returned,
            final(self).vars@.len() == old(self).vars@.len(),
            final(self).vars_view() == Context::settled_vars(
                old(self).pos@.update(
                    old(self).pos@.len() - 1,
                    (
                        old(self).pos@.last().0,
                        Context::next_index(old(self).pos@.last().1, n),
                        old(self).pos@.last().2,
                    ),
                ),
                old(self).vars_view(),
                code,
                globals.calls@,
            ),
            forall|m: Memory| old(self).live(&m) ==> final(self).live(&m),
        decreases old(self).pos@.len(), 2nat,
    {
        let len = self.pos.len();
        let i = self.pos[len - 1].1;
        let to = if i > usize::MAX - n {
            usize::MAX
        } else {
            i + n
        };
        self.advance_to(code, to, globals)
    }

    /// Returns from the current function: gives its frame and the values of
    /// its variables up, and moves the frame below, where there is one, on by
    /// one instruction.
    pub fn return_out(&mut self, code: &Code, globals: &Globals)
        requires
            old(self).pos@.len() > 0,
        ensures
            final(self).pos@ == (if old(self).pos@.len() == 1 {
                Seq::<Frame>::empty()
            } else {
                Context::settled(
                    old(self).pos@.drop_last().update(
                        old(self).pos@.len() - 2,
                        (
                            old(self).pos@[old(self).pos@.len() - 2].0,
                            Context::next_index(old(self).pos@[old(self).pos@.len() - 2].1, 1),
                            old(self).pos@[old(self).pos@.len() - 2].2,
                        ),
                    ),
                    code,
                    globals.calls@,
                )
            }),
            final(self).group == old(self).group,
            final(self).id == old(self).id,
            final(self).stack == old(self).stack,
            final(self).block_stack == old(self).block_stack,
            final(self).returned == old(self).returned,
            final(self).vars@.len() == old(self).vars@.len(),
            final(self).vars_view() == (if old(self).pos@.len() == 1 {
                Context::left_scope(old(self).vars_view(), old(self).pos@.last().0, code)
            } else {
                Context::settled_vars(
                    old(self).pos@.drop_last().update(
                        old(self).pos@.len() - 2,
                        (
                            old(self).pos@[old(self).pos@.len() - 2].0,
                            Context::next_index(old(self).pos@[old(self).pos@.len() - 2].1, 1),
                            old(self).pos@[old(self).pos@.len() - 2].2,
                        ),
                    ),
                    Context::left_scope(old(self).vars_view(), old(self).pos@.last().0, code),
                    code,
                    globals.calls@,
                )
            }),
            forall|m: Memory| old(self).live(&m) ==> final(self).live(&m),
        decreases old(self).pos@.len(), 0nat,
    {
        let n = self.pos.len();
        let func = self.pos[n - 1].0;
        let ghost before = self.pos@;
        self.pos.pop();
        assert(self.pos@ =~= before.drop_last());
        if func < code.bytecode_funcs.len() {
            self.pop_vars(code.bytecode_funcs[func].scoped_var_ids.as_slice());
            self.pop_vars(code.bytecode_funcs[func].capture_ids.as_slice());
        }
        if self.pos.len() > 0 {
            self.advance_by(code, 1, globals);
        } else {
            assert(self.pos@ =~= Seq::<Frame>::empty());
        }
    }

    /// A copy of the context whose stack and variables hold deep copies of
    /// what those of the context hold; `None` where the arena filled up
    /// first.
    pub fn clone_context(&self, globals: &mut Globals) -> (r: Option<Context>)
        requires
            old(globals).wf(),
            self.live(&old(globals).memory),
        ensures
            final(globals).wf(),
            final(globals).follows(old(globals)),
            final(globals).memory.extends(&old(globals).memory),
            final(globals).memory.sealed_since(&old(globals).memory),
            final(globals).arbitrary_ids == old(globals).arbitrary_ids,
            final(globals).objects == old(globals).objects,
            final(globals).triggers == old(globals).triggers,
            final(globals).printed == old(globals).printed,
            final(globals).calls == old(globals).calls,
            final(globals).call_counter == old(globals).call_counter,
            match r {
                Some(b) => b.is_copy_of(self, &old(globals).memory, &final(globals).memory)
                    && b.live(&final(globals).memory),
                None => final(globals).memory.slots().len() >= ARENA_LIMIT,
            },
    {
        let ghost start = globals.memory;
        let mut vars: Vec<Vec<ValueKey>> = Vec::new();
        let mut i: usize = 0;
        while i < self.vars.len()
            invariant
                i <= self.vars.len(),
                start == old(globals).memory,
                start.wf(),
                globals.wf(),
                globals.follows(old(globals)),
                globals.memory.extends(&start),
                globals.memory.sealed_since(&start),
                globals.arbitrary_ids == old(globals).arbitrary_ids,
                globals.objects == old(globals).objects,
                globals.triggers == old(globals).triggers,
                globals.printed == old(globals).printed,
                globals.calls == old(globals).calls,
                globals.call_counter == old(globals).call_counter,
                self.live(&start),
                vars@.len() == i,
                forall|a: int| 0 <= a < i ==> (#[trigger] vars@[a])@.len() == self.vars@[a]@.len(),
                forall|a: int, b: int|
                    0 <= a < i && 0 <= b < self.vars@[a]@.len() ==> globals.memory.fresh(
                        &start,
                        #[trigger] vars@[a]@[b],
                    ) && alike(&start, self.vars@[a]@[b], &globals.memory, vars@[a]@[b]),
            decreases self.vars.len() - i,
        {
            let ghost mid = globals.memory;
            let ghost done = vars@;
            assert forall|b: int| 0 <= b < self.vars@[i as int]@.len() implies mid.contains(
                #[trigger] self.vars@[i as int]@[b],
            ) by {
                assert(start.contains(self.vars@[i as int]@[b]));
            }
            match globals.memory.clone_keys(&self.vars[i]) {
                Some(copy) => {
                    vars.push(copy);
                    proof {
                        lemma_sealed_chain(&start, &mid, &globals.memory);
                        assert forall|a: int, b: int|
                            0 <= a < i + 1 && 0 <= b < self.vars@[a]@.len() implies globals.memory.fresh(
                            &start,
                            #[trigger] vars@[a]@[b],
                        ) && alike(&start, self.vars@[a]@[b], &globals.memory, vars@[a]@[b]) by {
                            if a < i {
                                assert(vars@[a] == done[a]);
                                assert(mid.fresh(&start, done[a]@[b]));
                                lemma_alike_copy_grows(
                                    &start,
                                    self.vars@[a]@[b],
                                    &mid,
                                    &globals.memory,
                                    done[a]@[b],
                                );
                            } else {
                                assert(start.contains(self.vars@[a]@[b]));
                                assert(globals.memory.fresh(&mid, vars@[a]@[b]));
                                lemma_alike_source_grows(
                                    &start,
                                    &mid,
                                    self.vars@[a]@[b],
                                    &globals.memory,
                                    vars@[a]@[b],
                                );
                            }
                        }
                    }
                },
                None => {
                    proof {
                        lemma_sealed_chain(&start, &mid, &globals.memory);
                    }
                    return None;
                },
            }
            i += 1;
        }
        let ghost mid = globals.memory;
        assert forall|b: int| 0 <= b < self.stack@.len() implies mid.contains(
            #[trigger] self.stack@[b],
        ) by {
            assert(start.contains(self.stack@[b]));
        }
        let stack = match globals.memory.clone_keys(&self.stack) {
            Some(s) => s,
            None => {
                proof {
                    lemma_sealed_chain(&start, &mid, &globals.memory);
                }
                return None;
            },
        };
        let mut block_stack: Vec<Block> = Vec::new();
        let mut j: usize = 0;
        while j < self.block_stack.len()
            invariant
                j <= self.block_stack.len(),
                block_stack@.len() == j,
                forall|a: int|
                    0 <= a < j ==> (#[trigger] block_stack@[a]).keys() == self.block_stack@[a].keys()
                        && block_stack@[a]@ == self.block_stack@[a]@,
            decreases self.block_stack.len() - j,
        {
            block_stack.push(self.block_stack[j].copy());
            j += 1;
        }
        let mut pos: Vec<Frame> = Vec::new();
        let mut p: usize = 0;
        while p < self.pos.len()
            invariant
                p <= self.pos.len(),
                pos@ == self.pos@.subrange(0, p as int),
            decreases self.pos.len() - p,
        {
            pos.push(self.pos[p]);
            p += 1;
            assert(pos@ =~= self.pos@.subrange(0, p as int));
        }
        assert(pos@ =~= self.pos@);
        let b = Context {
            group: self.group,
            id: self.id.clone(),
            pos,
            vars,
            stack,
            block_stack,
            returned: self.returned,
        };
        proof {
            lemma_sealed_chain(&start, &mid, &globals.memory);
            assert forall|a: int, c: int|
                0 <= a < self.vars@.len() && 0 <= c < self.vars@[a]@.len() implies globals.memory.fresh(
                &start,
                #[trigger] b.vars@[a]@[c],
            ) && alike(&start, self.vars@[a]@[c], &globals.memory, b.vars@[a]@[c]) by {
                assert(mid.fresh(&start, b.vars@[a]@[c]));
                lemma_alike_copy_grows(
                    &start,
                    self.vars@[a]@[c],
                    &mid,
                    &globals.memory,
                    b.vars@[a]@[c],
                );
            }
            assert forall|a: int| 0 <= a < self.stack@.len() implies globals.memory.fresh(
                &start,
                #[trigger] b.stack@[a],
            ) && alike(&start, self.stack@[a], &globals.memory, b.stack@[a]) by {
                assert(start.contains(self.stack@[a]));
                assert(globals.memory.fresh(&mid, b.stack@[a]));
                lemma_alike_source_grows(&start, &mid, self.stack@[a], &globals.memory, b.stack@[a]);
            }
            assert forall|a: int, c: int|
                0 <= a < b.block_stack@.len() && 0 <= c < b.block_stack@[a].keys().len() implies globals.memory.contains(
                #[trigger] b.block_stack@[a].keys()[c],
            ) by {
                assert(start.contains(self.block_stack@[a].keys()[c]));
            }
        }
        Some(b)
    }

    /// Whether `self`, over the arena `now`, is a copy of `from`, over the
    /// arena `before`: at the same place in the same group, with the same
    /// blocks, and with deep copies, in slots that `before` did not have, of
    /// what the stack and the variables of `from` hold.
    pub open spec fn is_copy_of(&self, from: &Context, before: &Memory, now: &Memory) -> bool {
        &&& self.group == from.group
        &&& self.id@ == from.id@
        &&& self.pos@ == from.pos@
        &&& self.returned == from.returned
        &&& self.block_stack@.len() == from.block_stack@.len()
        &&& forall|a: int|
            0 <= a < from.block_stack@.len() ==> (#[trigger] self.block_stack@[a]).keys()
                == from.block_stack@[a].keys() && self.block_stack@[a]@ == from.block_stack@[a]@
        &&& self.stack@.len() == from.stack@.len()
        &&& forall|a: int|
            0 <= a < from.stack@.len() ==> now.fresh(before, #[trigger] self.stack@[a]) && alike(
                before,
                from.stack@[a],
                now,
                self.stack@[a],
            )
        &&& self.vars@.len() == from.vars@.len()
        &&& forall|a: int|
            0 <= a < from.vars@.len() ==> (#[trigger] self.vars@[a])@.len() == from.vars@[a]@.len()
        &&& forall|a: int, c: int|
            0 <= a < from.vars@.len() && 0 <= c < from.vars@[a]@.len() ==> now.fresh(
                before,
                #[trigger] self.vars@[a]@[c],
            ) && alike(before, from.vars@[a]@[c], now, self.vars@[a]@[c])
    }

    /// Whether `k` is a key on the stack or a key of a variable.
    pub open spec fn has_root(&self, k: ValueKey) -> bool {
        (exists|i: int| 0 <= i < self.stack@.len() && self.stack@[i] == k) || (exists|
            i: int,
            j: int,
        | 0 <= i < self.vars@.len() && 0 <= j < self.vars@[i]@.len() && self.vars@[i]@[j] == k)
    }
}

/// A context and a copy of it made by [`Context::clone_context`] share no
/// slot: nothing that a key on the stack or in a variable of the one reaches
/// is reached by such a key of the other.
pub proof fn lemma_copy_shares_no_slot(
    a: &Context,
    b: &Context,
    before: &Memory,
    now: &Memory,
    ka: ValueKey,
    kb: ValueKey,
    x: ValueKey,
)
    requires
        before.wf(),
        now.wf(),
        now.extends(before),
        now.sealed_since(before),
        a.live(before),
        b.is_copy_of(a, before, now),
        a.has_root(ka),
        b.has_root(kb),
    ensures
        !(reaches(now, ka, x) && reaches(now, kb, x)),
{
    assert(before.contains(ka));
    assert(now.fresh(before, kb));
    lemma_copy_shares_nothing(before, now, ka, kb, x);
}

/// The tree of contexts: a leaf is a context, an inner node a split that
/// happened.
#[derive(Debug)]
pub enum FullContext {
    Single(Context),
    Split(Box<FullContext>, Box<FullContext>),
}

impl FullContext {
    /// The contexts of the tree, from left to right.
    pub open spec fn leaves(&self) -> Seq<Context>
        decreases self,
    {
        match self {
            FullContext::Single(c) => seq![*c],
            FullContext::Split(l, r) => l.leaves() + r.leaves(),
        }
    }

    /// The contexts of the tree that have a frame left, from left to right.
    pub open spec fn survivors(&self) -> Seq<Context>
        decreases self,
    {
        match self {
            FullContext::Single(c) => if c.finished() {
                Seq::<Context>::empty()
            } else {
                seq![*c]
            },
            FullContext::Split(l, r) => l.survivors() + r.survivors(),
        }
    }

    /// The height of the tree.
    pub open spec fn height(&self) -> nat
        decreases self,
    {
        match self {
            FullContext::Single(_) => 0,
            FullContext::Split(l, r) => 1 + if l.height() > r.height() {
                l.height()
            } else {
                r.height()
            },
        }
    }

    /// Whether every key that a context of the tree holds is the key of a
    /// slot of `m`.
    pub open spec fn live(&self, m: &Memory) -> bool {
        forall|i: int| 0 <= i < self.leaves().len() ==> (#[trigger] self.leaves()[i]).live(m)
    }

    /// The tree of one context, the one that a run starts with.
    pub fn single(var_count: usize) -> (r: FullContext)
        ensures
            r matches FullContext::Single(c) && c.group == Id::Specific(0) && c.id@ == "O"@
                && c.pos@ == seq![(0usize, 0usize, CallId(0))] && c.vars@.len() == var_count
                && c.stack@.len() == 0 && c.block_stack@.len() == 0 && c.returned is None,
            forall|m: Memory| r.live(&m),
    {
        let c = Context::new(var_count);
        let r = FullContext::Single(c);
        assert forall|m: Memory| r.live(&m) by {
            assert forall|i: int| 0 <= i < r.leaves().len() implies (#[trigger] r.leaves()[i]).live(
                &m,
            ) by {
                assert(r.leaves()[i] == c);
            }
        }
        r
    }

    /// The context of a leaf.
    pub fn inner(&mut self) -> (r: &mut Context)
        requires
            *old(self) is Single,
        ensures
            *r == old(self)->Single_0,
            *final(self) == FullContext::Single(*final(r)),
    {
        match self {
            FullContext::Single(c) => c,
            FullContext::Split(..) => vstd::pervasive::unreached(),
        }
    }

    /// Whether a context of the tree has a frame left.
    pub fn has_survivor(&self) -> (r: bool)
        ensures
            r == (self.survivors().len() > 0),
        decreases self,
    {
        match self {
            FullContext::Single(c) => c.pos.len() > 0,
            FullContext::Split(l, r) => l.has_survivor() || r.has_survivor(),
        }
    }

    /// Puts the contexts of the tree that have a frame left onto `out`, each
    /// as a leaf, from left to right.
    fn collect_survivors(self, out: &mut Vec<FullContext>)
        ensures
            chain_leaves(final(out)@) == chain_leaves(old(out)@) + self.survivors(),
            final(out)@ == old(out)@ + as_leaves(self.survivors()),
            final(out)@.len() >= old(out)@.len(),
            self.survivors().len() > 0 ==> final(out)@.len() > old(out)@.len(),
        decreases self,
    {
        match self {
            FullContext::Single(c) => {
                if c.pos.len() > 0 {
                    let ghost before = out@;
                    out.push(FullContext::Single(c));
                    assert(out@.drop_last() =~= before);
                    assert(out@ =~= before + as_leaves(self.survivors()));
                } else {
                    assert(out@ =~= old(out)@ + as_leaves(self.survivors()));
                }
            },
            FullContext::Split(l, r) => {
                let ghost ls = l.survivors();
                let ghost rs = r.survivors();
                l.collect_survivors(out);
                r.collect_survivors(out);
                assert(as_leaves(ls + rs) =~= as_leaves(ls) + as_leaves(rs));
                assert(out@ =~= old(out)@ + as_leaves(self.survivors()));
            },
        }
    }

    /// Takes the contexts without a frame out of the tree and makes of the
    /// others, in their order, a chain that leans right. Where no context has
    /// a frame, the tree stays as it is and the result is `false`.
    pub fn remove_finished(&mut self) -> (r: bool)
        ensures
            r == (old(self).survivors().len() > 0),
            r ==> final(self).leaves() == old(self).survivors() && *final(self) == chain_of(
                as_leaves(old(self).survivors()),
            ),
            !r ==> *final(self) == *old(self),
    {
        if !self.has_survivor() {
            return false;
        }
        let mut taken = FullContext::Single(Context::new(0));
        core::mem::swap(self, &mut taken);
        let mut list: Vec<FullContext> = Vec::new();
        assert(chain_leaves(list@) =~= Seq::<Context>::empty());
        taken.collect_survivors(&mut list);
        assert(list@ =~= as_leaves(old(self).survivors()));
        match FullContext::stack(list) {
            Some(t) => {
                *self = t;
                true
            },
            None => false,
        }
    }

    /// The chain that leans right of the trees of `list`, in their order:
    /// the first to the left of the chain of the others. `None` where the
    /// list is empty.
    pub fn stack(list: Vec<FullContext>) -> (r: Option<FullContext>)
        ensures
            match r {
                Some(t) => list@.len() > 0 && t == chain_of(list@) && t.leaves() == chain_leaves(
                    list@,
                ),
                None => list@.len() == 0,
            },
    {
        let mut list = list;
        let ghost all = list@;
        let mut acc = match list.pop() {
            Some(last) => last,
            None => {
                return None;
            },
        };
        assert(all.drop_last() =~= list@);
        assert(all.skip(all.len() - 1) =~= seq![acc]);
        assert(all.skip(all.len() - 1).drop_first() =~= Seq::<FullContext>::empty());
        while list.len() > 0
            invariant
                chain_leaves(list@) + acc.leaves() == chain_leaves(all),
                all.len() > 0,
                list@ == all.take(list@.len() as int),
                list@.len() < all.len(),
                acc == chain_of(all.skip(list@.len() as int)),
            decreases list.len(),
        {
            let ghost before = list@;
            let ghost tail = acc.leaves();
            let head = list.pop().unwrap();
            assert(before.drop_last() =~= list@);
            assert(list@ =~= all.take(list@.len() as int));
            assert(head == all[list@.len() as int]);
            assert(all.skip(list@.len() as int).drop_first() =~= all.skip(before.len() as int));
            acc = FullContext::Split(Box::new(head), Box::new(acc));
            assert(chain_leaves(list@) + acc.leaves() =~= chain_leaves(before) + tail);
        }
        assert(chain_leaves(list@) + acc.leaves() =~= acc.leaves());
        assert(all.skip(0) =~= all);
        Some(acc)
    }

    /// Splits a leaf in two: the context itself, to the left, and a copy of
    /// it whose stack and variables hold deep copies, to the right. The path
    /// of the one gets an `a`, that of the other a `b`. Where the arena fills
    /// up first, the leaf stays as it is and the result is `false`.
    pub fn split_context(&mut self, globals: &mut Globals) -> (r: bool)
        requires
            *old(self) is Single,
            old(globals).wf(),
            old(self)->Single_0.live(&old(globals).memory),
        ensures
            final(globals).wf(),
            final(globals).follows(old(globals)),
            final(globals).memory.extends(&old(globals).memory),
            final(globals).memory.sealed_since(&old(globals).memory),
            r ==> final(self).is_split_leaf(
                &old(self)->Single_0,
                &old(globals).memory,
                &final(globals).memory,
            ),
            !r ==> *final(self) == *old(self) && final(globals).memory.slots().len()
                >= ARENA_LIMIT,
    {
        let mut taken = FullContext::Single(Context::new(0));
        core::mem::swap(self, &mut taken);
        let mut a = match taken {
            FullContext::Single(c) => c,
            FullContext::Split(..) => vstd::pervasive::unreached(),
        };
        match a.clone_context(globals) {
            Some(copy) => {
                let mut b = copy;
                proof {
                    lemma_live_covers(&a, &old(globals).memory, &globals.memory);
                }
                let ghost a0 = a;
                let ghost b0 = b;
                a.id.push('a');
                b.id.push('b');
                assert(a.live(&globals.memory)) by {
                    assert(a.stack == a0.stack && a.vars == a0.vars && a.block_stack
                        == a0.block_stack);
                }
                assert(b.live(&globals.memory)) by {
                    assert(b.stack == b0.stack && b.vars == b0.vars && b.block_stack
                        == b0.block_stack);
                }
                *self = FullContext::Split(
                    Box::new(FullContext::Single(a)),
                    Box::new(FullContext::Single(b)),
                );
                true
            },
            None => {
                *self = FullContext::Single(a);
                false
            },
        }
    }

    /// Whether the tree is what splitting the leaf of `from` gives: to the
    /// left `from` itself, with an `a` at the end of its path; to the right a
    /// copy of it, with a `b` there, whose stack and variables hold deep
    /// copies in slots that `before` did not have.
    pub open spec fn is_split_leaf(&self, from: &Context, before: &Memory, now: &Memory) -> bool {
        match self {
            FullContext::Split(l, rt) => match (**l, **rt) {
                (FullContext::Single(a), FullContext::Single(b)) => {
                    &&& a.same_but_id(from)
                    &&& a.id@ == from.id@.push('a')
                    &&& b.id@ == from.id@.push('b')
                    &&& b.is_split_of(from, before, now)
                    &&& a.live(now)
                    &&& b.live(now)
                },
                _ => false,
            },
            FullContext::Single(_) => false,
        }
    }

    /// A walk through the leaves of the tree, from left to right.
    pub fn iter(&self) -> (r: ContextIter<'_>)
        ensures
            r.remaining() == self.leaves(),
            r.wf(),
    {
        ContextIter::new(self)
    }
}

impl Context {
    /// Whether `self` is `other` but for its path.
    pub open spec fn same_but_id(&self, other: &Context) -> bool {
        &&& self.group == other.group
        &&& self.pos == other.pos
        &&& self.vars == other.vars
        &&& self.stack == other.stack
        &&& self.block_stack == other.block_stack
        &&& self.returned == other.returned
    }

    /// Whether `self` is a copy of `from` as [`Context::is_copy_of`] has it,
    /// but for its path.
    pub open spec fn is_split_of(&self, from: &Context, before: &Memory, now: &Memory) -> bool {
        (Context { id: from.id, ..*self }).is_copy_of(from, before, now)
    }
}

/// The contexts of the trees of a list, tree by tree from left to right.
pub open spec fn chain_leaves(list: Seq<FullContext>) -> Seq<Context>
    decreases list.len(),
{
    if list.len() == 0 {
        Seq::<Context>::empty()
    } else {
        chain_leaves(list.drop_last()) + list.last().leaves()
    }
}

/// The chain that leans right of the trees of a list: the one tree of a
/// list of one, else the first tree to the left of the chain of the others.
pub open spec fn chain_of(list: Seq<FullContext>) -> FullContext
    decreases list.len(),
{
    if list.len() <= 1 {
        list[0]
    } else {
        FullContext::Split(Box::new(list[0]), Box::new(chain_of(list.drop_first())))
    }
}

/// The leaves of the contexts of a list.
pub open spec fn as_leaves(contexts: Seq<Context>) -> Seq<FullContext> {
    contexts.map_values(|c: Context| FullContext::Single(c))
}

/// The contexts of the trees of a list, the last tree first.
pub open spec fn reversed_leaves(list: Seq<&FullContext>) -> Seq<Context>
    decreases list.len(),
{
    if list.len() == 0 {
        Seq::<Context>::empty()
    } else {
        list.last().leaves() + reversed_leaves(list.drop_last())
    }
}

/// A walk through the leaves of a tree, from left to right: the leaf that
/// comes next and, the nearest last, the right subtrees still to be walked.
pub struct ContextIter<'a> {
    pub current_node: Option<&'a FullContext>,
    pub right_nodes: Vec<&'a FullContext>,
}

impl<'a> ContextIter<'a> {
    /// The contexts still to come, in the order in which they come.
    pub open spec fn remaining(&self) -> Seq<Context> {
        (match self.current_node {
            Some(n) => n.leaves(),
            None => Seq::<Context>::empty(),
        }) + reversed_leaves(self.right_nodes@)
    }

    /// The invariant of the walk: what comes next is a leaf, and where
    /// nothing comes next, nothing is put by.
    pub open spec fn wf(&self) -> bool {
        match self.current_node {
            Some(n) => *n is Single,
            None => self.right_nodes@.len() == 0,
        }
    }

    /// The walk through the leaves of `node`.
    pub fn new(node: &'a FullContext) -> (r: ContextIter<'a>)
        ensures
            r.remaining() == node.leaves(),
            r.wf(),
    {
        let mut iter = ContextIter { current_node: None, right_nodes: Vec::new() };
        iter.add_left_subtree(node);
        assert(node.leaves() + Seq::<Context>::empty() =~= node.leaves());
        iter
    }

    /// Goes down the left edge of `node`: its leftmost leaf comes next, and
    /// the right subtrees along the way are put by to be walked after it.
    pub fn add_left_subtree(&mut self, node: &'a FullContext)
        ensures
            final(self).remaining() == node.leaves() + reversed_leaves(old(self).right_nodes@),
            final(self).current_node matches Some(n) && *n is Single,
    {
        let mut node = node;
        let ghost first = node;
        loop
            invariant
                node.leaves() + reversed_leaves(self.right_nodes@) == first.leaves()
                    + reversed_leaves(old(self).right_nodes@),
            ensures
                self.remaining() == first.leaves() + reversed_leaves(old(self).right_nodes@),
                self.current_node matches Some(n) && *n is Single,
            decreases node.height(),
        {
            match node {
                FullContext::Split(left, right) => {
                    let ghost before = self.right_nodes@;
                    self.right_nodes.push(&**right);
                    assert(self.right_nodes@.drop_last() =~= before);
                    assert(left.leaves() + reversed_leaves(self.right_nodes@) =~= node.leaves()
                        + reversed_leaves(before));
                    node = &**left;
                },
                FullContext::Single(_) => {
                    self.current_node = Some(node);
                    break ;
                },
            }
        }
    }

    /// The leaf that comes next, or `None` at the end of the walk.
    pub fn next(&mut self) -> (r: Option<&'a FullContext>)
        requires
            old(self).wf(),
        ensures
            match r {
                Some(leaf) => *leaf is Single && old(self).remaining().len() > 0
                    && leaf->Single_0 == old(self).remaining()[0] && final(self).remaining()
                    == old(self).remaining().drop_first(),
                None => old(self).remaining().len() == 0 && final(self).remaining().len() == 0,
            },
            final(self).wf(),
    {
        let result = self.current_node;
        self.current_node = None;
        let ghost rights = self.right_nodes@;
        match self.right_nodes.pop() {
            Some(r) => {
                assert(rights.drop_last() =~= self.right_nodes@);
                assert(rights.last() == r);
                self.add_left_subtree(r);
                assert(self.remaining() == reversed_leaves(rights));
            },
            None => {
                assert(rights.len() == 0);
                assert(self.remaining() =~= reversed_leaves(rights));
            },
        }
        proof {
            match result {
                Some(c) => {
                    assert(c.leaves() =~= seq![c->Single_0]);
                    assert(old(self).remaining().drop_first() =~= reversed_leaves(rights));
                    assert(Seq::<Context>::empty() + reversed_leaves(rights) =~= reversed_leaves(
                        rights,
                    ));
                },
                None => {
                    assert(Seq::<Context>::empty() + reversed_leaves(rights) =~= reversed_leaves(
                        rights,
                    ));
                },
            }
        }
        result
    }
}

} // verus!
