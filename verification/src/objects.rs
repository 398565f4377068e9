//! Geometry Dash objects: a set of numbered parameters and a mode.

use vstd::prelude::*;
use crate::ids::{Block, Color, Group, Item};

verus! {

/// Whether an object is plain level content or a trigger.
#[derive(Clone, Copy, Debug, PartialEq, Eq, Structural)]
pub enum ObjectMode {
    Object,
    Trigger,
}

/// The value of one parameter of an object. A number is held as its binary64
/// bit pattern.
#[derive(Debug)]
pub enum ObjParam {
    Group(Group),
    Color(Color),
    Block(Block),
    Item(Item),
    Number(u64),
    Bool(bool),
    Text(String),
    GroupList(Vec<Group>),
    Epsilon,
}

/// The mathematical value of an [`ObjParam`].
pub enum ObjParamView {
    Group(Group),
    Color(Color),
    Block(Block),
    Item(Item),
    Number(u64),
    Bool(bool),
    Text(Seq<char>),
    GroupList(Seq<Group>),
    Epsilon,
}

impl View for ObjParam {
    type V = ObjParamView;

    open spec fn view(&self) -> ObjParamView {
        match self {
            ObjParam::Group(g) => ObjParamView::Group(*g),
            ObjParam::Color(c) => ObjParamView::Color(*c),
            ObjParam::Block(b) => ObjParamView::Block(*b),
            ObjParam::Item(i) => ObjParamView::Item(*i),
            ObjParam::Number(n) => ObjParamView::Number(*n),
            ObjParam::Bool(b) => ObjParamView::Bool(*b),
            ObjParam::Text(t) => ObjParamView::Text(t@),
            ObjParam::GroupList(l) => ObjParamView::GroupList(l@),
            ObjParam::Epsilon => ObjParamView::Epsilon,
        }
    }
}

/// A copy of a list of groups.
pub fn copy_groups(l: &Vec<Group>) -> (r: Vec<Group>)
    ensures
        r@ == l@,
{
    let mut r: Vec<Group> = Vec::new();
    let mut i: usize = 0;
    while i < l.len()
        invariant
            i <= l.len(),
            r@ == l@.subrange(0, i as int),
        decreases l.len() - i,
    {
        r.push(l[i]);
        i += 1;
        assert(r@ =~= l@.subrange(0, i as int));
    }
    assert(r@ =~= l@);
    r
}

impl ObjParam {
    /// A copy with the same value.
    pub fn copy(&self) -> (r: ObjParam)
        ensures
            r@ == self@,
    {
        match self {
            ObjParam::Group(g) => ObjParam::Group(*g),
            ObjParam::Color(c) => ObjParam::Color(*c),
            ObjParam::Block(b) => ObjParam::Block(*b),
            ObjParam::Item(i) => ObjParam::Item(*i),
            ObjParam::Number(n) => ObjParam::Number(*n),
            ObjParam::Bool(b) => ObjParam::Bool(*b),
            ObjParam::Text(t) => ObjParam::Text(t.clone()),
            ObjParam::GroupList(l) => ObjParam::GroupList(copy_groups(l)),
            ObjParam::Epsilon => ObjParam::Epsilon,
        }
    }
}

/// An object: its parameters, sorted by key with no key twice, and its mode.
#[derive(Debug)]
pub struct GdObj {
    pub params: Vec<(u16, ObjParam)>,
    pub mode: ObjectMode,
}

/// The mathematical value of a [`GdObj`].
pub struct GdObjView {
    pub params: Seq<(u16, ObjParamView)>,
    pub mode: ObjectMode,
}

impl View for GdObj {
    type V = GdObjView;

    open spec fn view(&self) -> GdObjView {
        GdObjView {
            params: self.params@.map_values(|p: (u16, ObjParam)| (p.0, p.1@)),
            mode: self.mode,
        }
    }
}

/// Whether the keys of a parameter list rise strictly.
pub open spec fn keys_rise(params: Seq<(u16, ObjParamView)>) -> bool {
    forall|i: int, j: int| 0 <= i < j < params.len() ==> params[i].0 < params[j].0
}

/// The parameter with key `key`, if the list has one.
pub open spec fn param_of(params: Seq<(u16, ObjParamView)>, key: u16) -> Option<ObjParamView> {
    if exists|i: int| 0 <= i < params.len() && params[i].0 == key {
        let i = choose|i: int| 0 <= i < params.len() && params[i].0 == key;
        Some(params[i].1)
    } else {
        None
    }
}

/// The list with `key` set to `value`: replaced where the key is there, put in
/// at its place in the order where it is not.
pub open spec fn with_param(params: Seq<(u16, ObjParamView)>, key: u16, value: ObjParamView) -> Seq<
    (u16, ObjParamView),
>
    decreases params.len(),
{
    if params.len() == 0 {
        seq![(key, value)]
    } else if params.last().0 < key {
        params.push((key, value))
    } else if params.last().0 == key {
        params.drop_last().push((key, value))
    } else {
        with_param(params.drop_last(), key, value).push(params.last())
    }
}

/// Setting a parameter keeps the keys rising, gives the key its new value and
/// leaves every other key as it was.
pub proof fn lemma_with_param(params: Seq<(u16, ObjParamView)>, key: u16, value: ObjParamView)
    requires
        keys_rise(params),
    ensures
        keys_rise(with_param(params, key, value)),
        forall|i: int|
            0 <= i < with_param(params, key, value).len() ==> {
                let p = #[trigger] with_param(params, key, value)[i];
                (p.0 == key && p.1 == value) || (p.0 != key && exists|j: int|
                    0 <= j < params.len() && params[j] == p)
            },
        exists|i: int|
            0 <= i < with_param(params, key, value).len() && with_param(params, key, value)[i] == (
                key,
                value,
            ),
        forall|j: int|
            0 <= j < params.len() && params[j].0 != key ==> exists|i: int|
                0 <= i < with_param(params, key, value).len() && with_param(params, key, value)[i]
                    == #[trigger] params[j],
        with_param(params, key, value).len() <= params.len() + 1,
        with_param(params, key, value).len() >= 1,
    decreases params.len(),
{
    let out = with_param(params, key, value);
    if params.len() == 0 {
        assert(out[0] == (key, value));
    } else if params.last().0 < key {
        assert(out[out.len() - 1] == (key, value));
        assert forall|j: int| 0 <= j < params.len() && params[j].0 != key implies exists|i: int|
            0 <= i < out.len() && out[i] == #[trigger] params[j] by {
            assert(out[j] == params[j]);
        }
    } else if params.last().0 == key {
        assert(out[out.len() - 1] == (key, value));
        assert forall|j: int| 0 <= j < params.len() && params[j].0 != key implies exists|i: int|
            0 <= i < out.len() && out[i] == #[trigger] params[j] by {
            assert(out[j] == params[j]);
        }
    } else {
        let rest = params.drop_last();
        let inner = with_param(rest, key, value);
        lemma_with_param(rest, key, value);
        assert forall|i: int, j: int| 0 <= i < j < out.len() implies out[i].0 < out[j].0 by {
            if j == out.len() - 1 {
                let p = inner[i];
                if p.0 != key {
                    let w = choose|w: int| 0 <= w < rest.len() && rest[w] == p;
                    assert(params[w].0 < params[params.len() - 1].0);
                }
            }
        }
        assert forall|i: int| 0 <= i < out.len() implies {
            let p = #[trigger] out[i];
            (p.0 == key && p.1 == value) || (p.0 != key && exists|j: int|
                0 <= j < params.len() && params[j] == p)
        } by {
            let p = out[i];
            if i == out.len() - 1 {
                assert(params[params.len() - 1] == p);
            } else {
                let q = inner[i];
                if q.0 != key {
                    let w = choose|w: int| 0 <= w < rest.len() && rest[w] == q;
                    assert(params[w] == p);
                }
            }
        }
        let at = choose|i: int| 0 <= i < inner.len() && inner[i] == (key, value);
        assert(out[at] == (key, value));
        assert forall|j: int| 0 <= j < params.len() && params[j].0 != key implies exists|i: int|
            0 <= i < out.len() && out[i] == #[trigger] params[j] by {
            if j == params.len() - 1 {
                assert(out[out.len() - 1] == params[j]);
            } else {
                assert(rest[j] == params[j]);
                let w = choose|w: int| 0 <= w < inner.len() && inner[w] == rest[j];
                assert(out[w] == params[j]);
            }
        }
    }
}

impl ObjParam {
    /// Whether two parameter values are the same.
    #[verifier::loop_isolation(false)]
    pub fn same(&self, other: &ObjParam) -> (r: bool)
        ensures
            r == (self@ == other@),
    {
        match (self, other) {
            (ObjParam::Group(a), ObjParam::Group(b)) => *a == *b,
            (ObjParam::Color(a), ObjParam::Color(b)) => *a == *b,
            (ObjParam::Block(a), ObjParam::Block(b)) => *a == *b,
            (ObjParam::Item(a), ObjParam::Item(b)) => *a == *b,
            (ObjParam::Number(a), ObjParam::Number(b)) => *a == *b,
            (ObjParam::Bool(a), ObjParam::Bool(b)) => *a == *b,
            (ObjParam::Text(a), ObjParam::Text(b)) => *a == *b,
            (ObjParam::GroupList(a), ObjParam::GroupList(b)) => {
                if a.len() != b.len() {
                    return false;
                }
                let mut i: usize = 0;
                while i < a.len()
                    invariant
                        i <= a.len(),
                        a.len() == b.len(),
                        forall|j: int| 0 <= j < i ==> a@[j] == b@[j],
                    decreases a.len() - i,
                {
                    if !(a[i] == b[i]) {
                        return false;
                    }
                    i += 1;
                }
                assert(a@ =~= b@);
                true
            },
            (ObjParam::Epsilon, ObjParam::Epsilon) => true,
            _ => false,
        }
    }
}

impl GdObj {
    /// Whether two objects are the same.
    pub fn same(&self, other: &GdObj) -> (r: bool)
        ensures
            r == (self@ == other@),
    {
        if !(self.mode == other.mode) || self.params.len() != other.params.len() {
            assert(self.params.len() != other.params.len() ==> self@.params.len()
                != other@.params.len());
            return false;
        }
        let mut i: usize = 0;
        while i < self.params.len()
            invariant
                i <= self.params.len(),
                self.params.len() == other.params.len(),
                forall|j: int| 0 <= j < i ==> self@.params[j] == other@.params[j],
            decreases self.params.len() - i,
        {
            if self.params[i].0 != other.params[i].0 || !self.params[i].1.same(&other.params[i].1) {
                assert(self@.params[i as int] != other@.params[i as int]);
                return false;
            }
            i += 1;
        }
        assert(self@.params =~= other@.params);
        true
    }

    /// Whether the parameters are sorted by key with no key twice.
    pub open spec fn wf(&self) -> bool {
        keys_rise(self@.params)
    }

    /// An object of the given mode with no parameters.
    pub fn new(mode: ObjectMode) -> (r: GdObj)
        ensures
            r.wf(),
            r@.params.len() == 0,
            r@.mode == mode,
    {
        let r = GdObj { params: Vec::new(), mode };
        assert(r@.params =~= Seq::empty());
        r
    }

    /// A copy with the same value.
    pub fn copy(&self) -> (r: GdObj)
        ensures
            r@ == self@,
    {
        let mut params: Vec<(u16, ObjParam)> = Vec::new();
        let mut i: usize = 0;
        while i < self.params.len()
            invariant
                i <= self.params.len(),
                params@.len() == i,
                forall|j: int| 0 <= j < i ==> params@[j].0 == self.params@[j].0 && params@[j].1@
                    == self.params@[j].1@,
            decreases self.params.len() - i,
        {
            params.push((self.params[i].0, self.params[i].1.copy()));
            i += 1;
        }
        let r = GdObj { params, mode: self.mode };
        assert(r@.params =~= self@.params);
        r
    }

    /// The position of `key` among the parameters, if it is there.
    pub fn find(&self, key: u16) -> (r: Option<usize>)
        ensures
            match r {
                Some(i) => i < self.params.len() && self.params@[i as int].0 == key,
                None => forall|j: int| 0 <= j < self.params.len() ==> self.params@[j].0 != key,
            },
    {
        let mut i: usize = 0;
        while i < self.params.len()
            invariant
                i <= self.params.len(),
                forall|j: int| 0 <= j < i ==> self.params@[j].0 != key,
            decreases self.params.len() - i,
        {
            if self.params[i].0 == key {
                return Some(i);
            }
            i += 1;
        }
        None
    }

    /// Sets the parameter `key` to `value`, replacing what it held.
    pub fn insert(&mut self, key: u16, value: ObjParam)
        requires
            old(self).wf(),
        ensures
            final(self).wf(),
            final(self)@.mode == old(self)@.mode,
            final(self)@.params == with_param(old(self)@.params, key, value@),
    {
        let ghost before = self@.params;
        let ghost val = value@;
        let mut pos: usize = 0;
        while pos < self.params.len() && self.params[pos].0 < key
            invariant
                pos <= self.params.len(),
                forall|j: int| 0 <= j < pos ==> self.params@[j].0 < key,
            decreases self.params.len() - pos,
        {
            pos += 1;
        }
        proof {
            assert forall|j: int| pos <= j < before.len() implies (#[trigger] before[j]).0
                >= key by {
                if j > pos {
                    assert(before[pos as int].0 < before[j].0);
                }
            }
            assert forall|j: int| 0 <= j < pos implies (#[trigger] before[j]).0 < key by {
                assert(before[j].0 == self.params@[j].0);
            }
            lemma_with_param_at(before, key, val, pos as int);
            lemma_place_rises(before, key, val, pos as int);
        }
        if pos < self.params.len() && self.params[pos].0 == key {
            self.params.set(pos, (key, value));
            assert(self@.params =~= before.update(pos as int, (key, val)));
        } else {
            self.params.insert(pos, (key, value));
            assert(self@.params =~= before.insert(pos as int, (key, val)));
        }
    }
}

/// Changing the entry at the place of a key, or putting one in there, keeps
/// the keys rising.
pub proof fn lemma_place_rises(
    params: Seq<(u16, ObjParamView)>,
    key: u16,
    value: ObjParamView,
    pos: int,
)
    requires
        keys_rise(params),
        0 <= pos <= params.len(),
        forall|j: int| 0 <= j < pos ==> (#[trigger] params[j]).0 < key,
        forall|j: int| pos <= j < params.len() ==> (#[trigger] params[j]).0 >= key,
    ensures
        pos < params.len() && params[pos].0 == key ==> keys_rise(
            params.update(pos, (key, value)),
        ),
        !(pos < params.len() && params[pos].0 == key) ==> keys_rise(
            params.insert(pos, (key, value)),
        ),
{
    if pos < params.len() && params[pos].0 == key {
        let out = params.update(pos, (key, value));
        assert forall|i: int, j: int| 0 <= i < j < out.len() implies out[i].0 < out[j].0 by {
            assert(params[i].0 < params[j].0);
        }
    } else {
        let out = params.insert(pos, (key, value));
        assert forall|i: int, j: int| 0 <= i < j < out.len() implies out[i].0 < out[j].0 by {
            if j < pos {
                assert(params[i].0 < params[j].0);
            } else if j == pos {
                assert(out[i] == params[i]);
            } else if i < pos {
                assert(out[j] == params[j - 1]);
                assert(out[i] == params[i]);
                if i < j - 1 {
                    assert(params[i].0 < params[j - 1].0);
                }
            } else if i == pos {
                assert(out[j] == params[j - 1]);
                assert(params[j - 1].0 >= key);
                if j - 1 > pos {
                    assert(params[pos].0 < params[j - 1].0);
                }
            } else {
                assert(out[i] == params[i - 1]);
                assert(out[j] == params[j - 1]);
                assert(params[i - 1].0 < params[j - 1].0);
            }
        }
    }
}

/// Where the keys rise, setting a parameter changes the entry at the place
/// of its key or puts one in there.
pub proof fn lemma_with_param_at(
    params: Seq<(u16, ObjParamView)>,
    key: u16,
    value: ObjParamView,
    pos: int,
)
    requires
        keys_rise(params),
        0 <= pos <= params.len(),
        forall|j: int| 0 <= j < pos ==> (#[trigger] params[j]).0 < key,
        forall|j: int| pos <= j < params.len() ==> (#[trigger] params[j]).0 >= key,
    ensures
        with_param(params, key, value) == if pos < params.len() && params[pos].0 == key {
            params.update(pos, (key, value))
        } else {
            params.insert(pos, (key, value))
        },
    decreases params.len(),
{
    let out = with_param(params, key, value);
    if params.len() == 0 {
        assert(out =~= params.insert(pos, (key, value)));
    } else if params.last().0 < key {
        assert(pos == params.len());
        assert(out =~= params.insert(pos, (key, value)));
    } else if params.last().0 == key {
        if pos < params.len() - 1 {
            assert(params[pos].0 >= key);
            assert(params[pos].0 < params[params.len() - 1].0);
        }
        assert(pos == params.len() - 1);
        assert(out =~= params.update(pos, (key, value)));
    } else {
        let rest = params.drop_last();
        assert(pos <= rest.len());
        assert forall|j: int| 0 <= j < pos implies (#[trigger] rest[j]).0 < key by {
            assert(rest[j] == params[j]);
        }
        assert forall|j: int| pos <= j < rest.len() implies (#[trigger] rest[j]).0 >= key by {
            assert(rest[j] == params[j]);
        }
        lemma_with_param_at(rest, key, value, pos);
        if pos < rest.len() && rest[pos].0 == key {
            assert(out =~= params.update(pos, (key, value)));
        } else {
            assert(out =~= params.insert(pos, (key, value)));
        }
    }
}

} // verus!
