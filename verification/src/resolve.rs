//! Giving numbers to arbitrary ids, and writing the level out.

use vstd::prelude::*;
use crate::error::{RuntimeError, RuntimeErrorView};
use crate::float::FloatUnit;
use crate::ids::{Block, Color, Group, IdClass, Item, ID_MAX, SPWN_SIGNATURE_GROUP};
use crate::level::{
    comma_free, get_used_ids, level_parses, props_of, used_ids, IdSet, UsedIds, UsedView, ID_SPACE,
};
use crate::objects::{GdObj, GdObjView, ObjParam, ObjParamView};
use crate::serialize::{
    closing, object_text, pairs_text, renders, serialize_obj, signed_params,
};
use crate::text::numeral;

verus! {

/// The largest number that an arbitrary id is given.
pub const LAST_FREE: u16 = 9999;

/// The number given where no free one is left.
pub const FALLBACK_ID: u16 = 999;

/// Whether an arbitrary id of `class` may be given the number `n`: the level
/// does not occupy it, and it is not the signature group.
pub open spec fn is_free(level: UsedView, class: IdClass, n: int) -> bool {
    !level.of(class).contains(n) && !(class == IdClass::Group && n == SPWN_SIGNATURE_GROUP)
}

/// The smallest free number of `class` from `from` up to 9999.
pub open spec fn next_free(level: UsedView, class: IdClass, from: int) -> Option<int>
    decreases 10000 - from,
{
    if from > LAST_FREE || from < 1 {
        None
    } else if is_free(level, class, from) {
        Some(from)
    } else {
        next_free(level, class, from + 1)
    }
}

/// What the resolver knows of one class: the ids that are taken, where the
/// search for a free number goes on, and the numbers it gave.
pub struct ClassView {
    pub closed: Set<int>,
    pub cursor: int,
    pub given: Map<int, int>,
}

/// The state of the resolver.
pub struct ResolverView {
    pub level: UsedView,
    pub group: ClassView,
    pub color: ClassView,
    pub block: ClassView,
    pub item: ClassView,
}

impl ResolverView {
    /// The state of one class.
    pub open spec fn of(self, class: IdClass) -> ClassView {
        match class {
            IdClass::Group => self.group,
            IdClass::Color => self.color,
            IdClass::Block => self.block,
            IdClass::Item => self.item,
        }
    }

    /// The same with the state of one class replaced.
    pub open spec fn with(self, class: IdClass, c: ClassView) -> ResolverView {
        match class {
            IdClass::Group => ResolverView { group: c, ..self },
            IdClass::Color => ResolverView { color: c, ..self },
            IdClass::Block => ResolverView { block: c, ..self },
            IdClass::Item => ResolverView { item: c, ..self },
        }
    }

    /// The state before any object is seen: the ids of the level are taken,
    /// the search starts at 1, no number was given.
    pub open spec fn start(level: UsedView) -> ResolverView {
        ResolverView {
            level,
            group: ClassView { closed: level.group, cursor: 1, given: Map::empty() },
            color: ClassView { closed: level.color, cursor: 1, given: Map::empty() },
            block: ClassView { closed: level.block, cursor: 1, given: Map::empty() },
            item: ClassView { closed: level.item, cursor: 1, given: Map::empty() },
        }
    }

    /// The number that the id `id` of `class` has once resolved: its own
    /// where it is specific; the number it was given before; else the next
    /// free one, or 999 where none is left.
    pub open spec fn number_of(self, class: IdClass, id: u16, arbitrary: bool) -> int {
        let c = self.of(class);
        if !arbitrary {
            id as int
        } else if c.given.dom().contains(id as int) {
            c.given[id as int]
        } else {
            match next_free(self.level, class, c.cursor) {
                Some(n) => n,
                None => FALLBACK_ID as int,
            }
        }
    }

    /// The state after the id `id` of `class` was resolved: its number is
    /// taken; where one was given now, it is remembered and the search goes
    /// on behind it.
    pub open spec fn after(self, class: IdClass, id: u16, arbitrary: bool) -> ResolverView {
        let c = self.of(class);
        let n = self.number_of(class, id, arbitrary);
        if !arbitrary {
            self.with(class, ClassView { closed: c.closed.insert(n), ..c })
        } else if c.given.dom().contains(id as int) {
            self
        } else {
            self.with(
                class,
                ClassView {
                    closed: c.closed.insert(n),
                    cursor: match next_free(self.level, class, c.cursor) {
                        Some(f) => f + 1,
                        None => 10000,
                    },
                    given: c.given.insert(id as int, n),
                },
            )
        }
    }

    /// The state after the groups of a list were resolved, one after
    /// another.
    pub open spec fn after_groups(self, l: Seq<Group>) -> ResolverView
        decreases l.len(),
    {
        if l.len() == 0 {
            self
        } else {
            self.after_groups(l.drop_last()).after(IdClass::Group, l.last().id, l.last().arbitrary)
        }
    }

    /// The groups of a list, resolved one after another.
    pub open spec fn groups(self, l: Seq<Group>) -> Seq<Group>
        decreases l.len(),
    {
        if l.len() == 0 {
            l
        } else {
            self.groups(l.drop_last()).push(
                Group {
                    id: self.after_groups(l.drop_last()).number_of(
                        IdClass::Group,
                        l.last().id,
                        l.last().arbitrary,
                    ) as u16,
                    arbitrary: false,
                },
            )
        }
    }

    /// The state after a parameter was resolved.
    pub open spec fn after_param(self, p: ObjParamView) -> ResolverView {
        match p {
            ObjParamView::Group(g) => self.after(IdClass::Group, g.id, g.arbitrary),
            ObjParamView::Color(g) => self.after(IdClass::Color, g.id, g.arbitrary),
            ObjParamView::Block(g) => self.after(IdClass::Block, g.id, g.arbitrary),
            ObjParamView::Item(g) => self.after(IdClass::Item, g.id, g.arbitrary),
            ObjParamView::GroupList(l) => self.after_groups(l),
            _ => self,
        }
    }

    /// A parameter, resolved: every id in it has its number and is
    /// arbitrary no more.
    pub open spec fn param(self, p: ObjParamView) -> ObjParamView {
        match p {
            ObjParamView::Group(g) => ObjParamView::Group(
                Group {
                    id: self.number_of(IdClass::Group, g.id, g.arbitrary) as u16,
                    arbitrary: false,
                },
            ),
            ObjParamView::Color(g) => ObjParamView::Color(
                Color {
                    id: self.number_of(IdClass::Color, g.id, g.arbitrary) as u16,
                    arbitrary: false,
                },
            ),
            ObjParamView::Block(g) => ObjParamView::Block(
                Block {
                    id: self.number_of(IdClass::Block, g.id, g.arbitrary) as u16,
                    arbitrary: false,
                },
            ),
            ObjParamView::Item(g) => ObjParamView::Item(
                Item {
                    id: self.number_of(IdClass::Item, g.id, g.arbitrary) as u16,
                    arbitrary: false,
                },
            ),
            ObjParamView::GroupList(l) => ObjParamView::GroupList(self.groups(l)),
            _ => p,
        }
    }

    /// The state after the parameters of an object were resolved, in the
    /// order of their keys.
    pub open spec fn after_params(self, ps: Seq<(u16, ObjParamView)>) -> ResolverView
        decreases ps.len(),
    {
        if ps.len() == 0 {
            self
        } else {
            self.after_params(ps.drop_last()).after_param(ps.last().1)
        }
    }

    /// The parameters of an object, resolved in the order of their keys.
    pub open spec fn params(self, ps: Seq<(u16, ObjParamView)>) -> Seq<(u16, ObjParamView)>
        decreases ps.len(),
    {
        if ps.len() == 0 {
            ps
        } else {
            self.params(ps.drop_last()).push(
                (ps.last().0, self.after_params(ps.drop_last()).param(ps.last().1)),
            )
        }
    }

    /// The state after the objects were resolved, one after another.
    pub open spec fn after_objects(self, objs: Seq<GdObjView>) -> ResolverView
        decreases objs.len(),
    {
        if objs.len() == 0 {
            self
        } else {
            self.after_objects(objs.drop_last()).after_params(objs.last().params)
        }
    }

    /// The objects, resolved one after another.
    pub open spec fn objects(self, objs: Seq<GdObjView>) -> Seq<GdObjView>
        decreases objs.len(),
    {
        if objs.len() == 0 {
            objs
        } else {
            self.objects(objs.drop_last()).push(
                GdObjView {
                    params: self.after_objects(objs.drop_last()).params(objs.last().params),
                    mode: objs.last().mode,
                },
            )
        }
    }
}

/// Whether no id in the parameter is arbitrary.
pub open spec fn param_resolved(p: ObjParamView) -> bool {
    match p {
        ObjParamView::Group(g) => !g.arbitrary,
        ObjParamView::Color(g) => !g.arbitrary,
        ObjParamView::Block(g) => !g.arbitrary,
        ObjParamView::Item(g) => !g.arbitrary,
        ObjParamView::GroupList(l) => forall|i: int| 0 <= i < l.len() ==> !(#[trigger] l[i]).arbitrary,
        _ => true,
    }
}

/// Whether no id in the parameters of the object is arbitrary.
pub open spec fn object_resolved(o: GdObjView) -> bool {
    forall|i: int| 0 <= i < o.params.len() ==> param_resolved((#[trigger] o.params[i]).1)
}

/// Whether every number that the resolver gave is at most 9999.
pub open spec fn gave_within(st: ResolverView) -> bool {
    forall|class: IdClass, k: int| #[trigger]
        st.of(class).given.dom().contains(k) ==> 0 <= st.of(class).given[k] <= LAST_FREE
}

/// Whether every id in the parameter is specific and at most 9999.
pub open spec fn param_within(p: ObjParamView) -> bool {
    match p {
        ObjParamView::Group(g) => !g.arbitrary && g.id <= LAST_FREE,
        ObjParamView::Color(g) => !g.arbitrary && g.id <= LAST_FREE,
        ObjParamView::Block(g) => !g.arbitrary && g.id <= LAST_FREE,
        ObjParamView::Item(g) => !g.arbitrary && g.id <= LAST_FREE,
        ObjParamView::GroupList(l) => forall|i: int|
            0 <= i < l.len() ==> !(#[trigger] l[i]).arbitrary && l[i].id <= LAST_FREE,
        _ => true,
    }
}

/// Whether every specific id in the parameter is at most 9999.
pub open spec fn param_given_within(p: ObjParamView) -> bool {
    match p {
        ObjParamView::Group(g) => g.arbitrary || g.id <= LAST_FREE,
        ObjParamView::Color(g) => g.arbitrary || g.id <= LAST_FREE,
        ObjParamView::Block(g) => g.arbitrary || g.id <= LAST_FREE,
        ObjParamView::Item(g) => g.arbitrary || g.id <= LAST_FREE,
        ObjParamView::GroupList(l) => forall|i: int|
            0 <= i < l.len() ==> (#[trigger] l[i]).arbitrary || l[i].id <= LAST_FREE,
        _ => true,
    }
}

/// Whether every specific id in the objects is at most 9999.
pub open spec fn objects_given_within(objs: Seq<GdObjView>) -> bool {
    forall|i: int, j: int|
        0 <= i < objs.len() && 0 <= j < objs[i].params.len() ==> param_given_within(
            (#[trigger] objs[i].params[j]).1,
        )
}

/// A free number that is found lies between where the search began and 9999.
pub proof fn lemma_next_free_within(level: UsedView, class: IdClass, from: int)
    ensures
        next_free(level, class, from) matches Some(n) ==> from <= n <= LAST_FREE && 1 <= n,
    decreases 10000 - from,
{
    if !(from > LAST_FREE || from < 1) && !is_free(level, class, from) {
        lemma_next_free_within(level, class, from + 1);
    }
}

/// The number of an id is at most 9999 where the id is arbitrary or is at
/// most 9999 itself, and the resolver stays within 9999 when it takes it.
pub proof fn lemma_number_within(st: ResolverView, class: IdClass, id: u16, arbitrary: bool)
    requires
        gave_within(st),
        arbitrary || id <= LAST_FREE,
    ensures
        0 <= st.number_of(class, id, arbitrary) <= LAST_FREE,
        gave_within(st.after(class, id, arbitrary)),
{
    let c = st.of(class);
    lemma_next_free_within(st.level, class, c.cursor);
    let next = st.after(class, id, arbitrary);
    assert forall|other: IdClass, k: int| #[trigger]
        next.of(other).given.dom().contains(k) implies 0 <= next.of(other).given[k]
        <= LAST_FREE by {
        if other == class {
            if st.of(class).given.dom().contains(k) {
                assert(0 <= st.of(class).given[k] <= LAST_FREE);
            }
        } else {
            assert(next.of(other) == st.of(other));
            assert(st.of(other).given.dom().contains(k));
        }
    }
}

/// The groups of a list, resolved, are specific and at most 9999.
pub proof fn lemma_groups_within(st: ResolverView, l: Seq<Group>)
    requires
        gave_within(st),
        forall|i: int| 0 <= i < l.len() ==> (#[trigger] l[i]).arbitrary || l[i].id <= LAST_FREE,
    ensures
        gave_within(st.after_groups(l)),
        st.groups(l).len() == l.len(),
        forall|i: int|
            0 <= i < l.len() ==> !(#[trigger] st.groups(l)[i]).arbitrary && st.groups(l)[i].id
                <= LAST_FREE,
    decreases l.len(),
{
    if l.len() > 0 {
        let rest = l.drop_last();
        assert forall|i: int| 0 <= i < rest.len() implies (#[trigger] rest[i]).arbitrary || rest[i].id
            <= LAST_FREE by {
            assert(rest[i] == l[i]);
        }
        lemma_groups_within(st, rest);
        lemma_number_within(st.after_groups(rest), IdClass::Group, l.last().id, l.last().arbitrary);
        assert forall|i: int| 0 <= i < l.len() implies !(#[trigger] st.groups(l)[i]).arbitrary
            && st.groups(l)[i].id <= LAST_FREE by {
            if i < rest.len() {
                assert(st.groups(l)[i] == st.groups(rest)[i]);
            }
        }
    }
}

/// A parameter, resolved, holds specific ids of at most 9999 only.
pub proof fn lemma_param_within(st: ResolverView, p: ObjParamView)
    requires
        gave_within(st),
        param_given_within(p),
    ensures
        gave_within(st.after_param(p)),
        param_within(st.param(p)),
{
    match p {
        ObjParamView::Group(g) => lemma_number_within(st, IdClass::Group, g.id, g.arbitrary),
        ObjParamView::Color(g) => lemma_number_within(st, IdClass::Color, g.id, g.arbitrary),
        ObjParamView::Block(g) => lemma_number_within(st, IdClass::Block, g.id, g.arbitrary),
        ObjParamView::Item(g) => lemma_number_within(st, IdClass::Item, g.id, g.arbitrary),
        ObjParamView::GroupList(l) => lemma_groups_within(st, l),
        _ => {},
    }
}

/// The parameters of an object, resolved, hold specific ids of at most 9999
/// only.
pub proof fn lemma_params_within(st: ResolverView, ps: Seq<(u16, ObjParamView)>)
    requires
        gave_within(st),
        forall|j: int| 0 <= j < ps.len() ==> param_given_within((#[trigger] ps[j]).1),
    ensures
        gave_within(st.after_params(ps)),
        st.params(ps).len() == ps.len(),
        forall|j: int| 0 <= j < ps.len() ==> param_within((#[trigger] st.params(ps)[j]).1),
    decreases ps.len(),
{
    if ps.len() > 0 {
        let rest = ps.drop_last();
        assert forall|j: int| 0 <= j < rest.len() implies param_given_within(
            (#[trigger] rest[j]).1,
        ) by {
            assert(rest[j] == ps[j]);
        }
        lemma_params_within(st, rest);
        lemma_param_within(st.after_params(rest), ps.last().1);
        assert forall|j: int| 0 <= j < ps.len() implies param_within(
            (#[trigger] st.params(ps)[j]).1,
        ) by {
            if j < rest.len() {
                assert(st.params(ps)[j] == st.params(rest)[j]);
            }
        }
    }
}

/// Every id of the resolved objects is specific and at most 9999, where
/// every specific id of the objects is at most 9999: the resolver gives no
/// number beyond.
pub proof fn lemma_objects_within(st: ResolverView, objs: Seq<GdObjView>)
    requires
        gave_within(st),
        objects_given_within(objs),
    ensures
        gave_within(st.after_objects(objs)),
        st.objects(objs).len() == objs.len(),
        forall|i: int, j: int|
            0 <= i < objs.len() && 0 <= j < st.objects(objs)[i].params.len() ==> param_within(
                (#[trigger] st.objects(objs)[i].params[j]).1,
            ),
    decreases objs.len(),
{
    if objs.len() > 0 {
        let rest = objs.drop_last();
        assert(objects_given_within(rest)) by {
            assert forall|i: int, j: int|
                0 <= i < rest.len() && 0 <= j < rest[i].params.len() implies param_given_within(
                (#[trigger] rest[i].params[j]).1,
            ) by {
                assert(rest[i] == objs[i]);
                assert(param_given_within(objs[i].params[j].1));
            }
        }
        lemma_objects_within(st, rest);
        let last = objs.last();
        assert forall|j: int| 0 <= j < last.params.len() implies param_given_within(
            (#[trigger] last.params[j]).1,
        ) by {
            assert(param_given_within(objs[objs.len() - 1].params[j].1));
        }
        lemma_params_within(st.after_objects(rest), last.params);
        assert forall|i: int, j: int|
            0 <= i < objs.len() && 0 <= j < st.objects(objs)[i].params.len() implies param_within(
            (#[trigger] st.objects(objs)[i].params[j]).1,
        ) by {
            if i < rest.len() {
                assert(st.objects(objs)[i] == st.objects(rest)[i]);
            }
        }
    }
}

/// What is appended holds ids of at most 9999 only, where every specific id
/// of the objects is at most 9999; and no class then has more than 999 ids
/// taken.
pub proof fn lemma_appended_within(
    objs: Seq<GdObjView>,
    ls: Seq<char>,
    out: (Seq<char>, Seq<usize>),
)
    requires
        appended(objs, ls, Ok(out)),
    ensures
        out.1.len() == 4,
        forall|c: int| 0 <= c < 4 ==> #[trigger] out.1[c] <= ID_MAX,
        writes(ResolverView::start(used_ids(ls)).objects(objs), out.0),
        objects_given_within(objs) ==> forall|i: int, j: int|
            0 <= i < objs.len() && 0 <= j < ResolverView::start(used_ids(ls)).objects(
                objs,
            )[i].params.len() ==> param_within(
                (#[trigger] ResolverView::start(used_ids(ls)).objects(objs)[i].params[j]).1,
            ),
{
    let start = ResolverView::start(used_ids(ls));
    if objects_given_within(objs) {
        assert(gave_within(start)) by {
            assert forall|class: IdClass, k: int| #[trigger]
                start.of(class).given.dom().contains(k) implies 0 <= start.of(class).given[k]
                <= LAST_FREE by {
                assert(start.of(class).given =~= Map::empty());
            }
        }
        lemma_objects_within(start, objs);
    }
}

/// Whether `s` is the text of the one object `o`, `pairs` being its
/// parameters, with the signature group put in, put into text; and reading
/// the parameters back from the text gives each key with its text, where no
/// text holds a comma.
pub open spec fn reads_back(o: GdObjView, pairs: Seq<(u16, Seq<char>)>, s: Seq<char>) -> bool {
    &&& renders(signed_params(o.params), pairs)
    &&& s == pairs_text(pairs) + closing(o.mode)
    &&& comma_free(pairs) ==> props_of(pairs_text(pairs)) == pairs.map_values(
        |p: (u16, Seq<char>)| (numeral(p.0 as nat), p.1),
    )
}

/// What is appended for one object is the text of that object, resolved,
/// and can be read back: its parameters, key by key in the order of the
/// keys, then what closes the object.
pub proof fn lemma_appended_reads_back(o: GdObjView, ls: Seq<char>, out: (Seq<char>, Seq<usize>))
    requires
        appended(seq![o], ls, Ok(out)),
    ensures
        exists|pairs: Seq<(u16, Seq<char>)>| #[trigger]
            reads_back(ResolverView::start(used_ids(ls)).objects(seq![o])[0], pairs, out.0),
{
    let start = ResolverView::start(used_ids(ls));
    let objs = start.objects(seq![o]);
    assert(seq![o].drop_last() =~= Seq::<GdObjView>::empty());
    assert(start.objects(Seq::<GdObjView>::empty()) =~= Seq::<GdObjView>::empty());
    assert(objs.len() == 1);
    assert(writes(objs, out.0));
    let (head, pairs) = choose|head: Seq<char>, pairs: Seq<(u16, Seq<char>)>|
        writes(objs.drop_last(), head) && #[trigger] ends_with(out.0, head, pairs, objs.last());
    assert(objs.drop_last() =~= Seq::<GdObjView>::empty());
    assert(head == Seq::<char>::empty());
    assert(out.0 =~= pairs_text(pairs) + closing(objs[0].mode));
    if comma_free(pairs) {
        crate::level::lemma_props_round_trip(pairs);
    }
    assert(reads_back(objs[0], pairs, out.0));
}

/// The state of one class as the resolver holds it.
pub struct ClassState {
    pub closed: IdSet,
    pub cursor: u16,
    /// The number given to each arbitrary id; 0 where none was given.
    pub given: Vec<u16>,
}

impl ClassState {
    /// The invariant.
    pub open spec fn wf(&self) -> bool {
        &&& self.closed.wf()
        &&& self.given@.len() == ID_SPACE
        &&& forall|k: int| 0 <= k < self.given@.len() ==> #[trigger] self.given@[k] <= LAST_FREE
        &&& 1 <= self.cursor <= 10000
    }
}

impl View for ClassState {
    type V = ClassView;

    open spec fn view(&self) -> ClassView {
        ClassView {
            closed: self.closed.ids(),
            cursor: self.cursor as int,
            given: Map::new(
                |k: int| 0 <= k < self.given@.len() && self.given@[k] != 0,
                |k: int| self.given@[k] as int,
            ),
        }
    }
}

/// The resolver: the ids that the level occupies and the state of each
/// class.
pub struct Resolver {
    pub level: UsedIds,
    pub group: ClassState,
    pub color: ClassState,
    pub block: ClassState,
    pub item: ClassState,
}

impl View for Resolver {
    type V = ResolverView;

    open spec fn view(&self) -> ResolverView {
        ResolverView {
            level: self.level@,
            group: self.group@,
            color: self.color@,
            block: self.block@,
            item: self.item@,
        }
    }
}

fn zeros() -> (r: Vec<u16>)
    ensures
        r@.len() == ID_SPACE,
        forall|j: int| 0 <= j < ID_SPACE ==> r@[j] == 0,
{
    let mut r: Vec<u16> = Vec::new();
    let mut i: usize = 0;
    while i < ID_SPACE
        invariant
            i <= ID_SPACE,
            r@.len() == i,
            forall|j: int| 0 <= j < i ==> r@[j] == 0,
        decreases ID_SPACE - i,
    {
        r.push(0);
        i += 1;
    }
    r
}

fn class_start(level: &IdSet) -> (r: ClassState)
    requires
        level.wf(),
    ensures
        r.wf(),
        r@ == (ClassView { closed: level.ids(), cursor: 1, given: Map::empty() }),
{
    let r = ClassState { closed: IdSet::copy(level), cursor: 1, given: zeros() };
    assert(r@.given =~= Map::empty());
    r
}

impl Resolver {
    /// The invariant.
    pub open spec fn wf(&self) -> bool {
        self.level.wf() && self.group.wf() && self.color.wf() && self.block.wf() && self.item.wf()
    }

    /// The resolver for a level that occupies the ids `level`.
    pub fn new(level: UsedIds) -> (r: Resolver)
        requires
            level.wf(),
        ensures
            r.wf(),
            r@ == ResolverView::start(level@),
    {
        let group = class_start(&level.group);
        let color = class_start(&level.color);
        let block = class_start(&level.block);
        let item = class_start(&level.item);
        Resolver { level, group, color, block, item }
    }

    /// The smallest free number of `class` from `from` on.
    fn find_free(&self, class: IdClass, from: u16) -> (r: Option<u16>)
        requires
            self.wf(),
            1 <= from <= 10000,
        ensures
            match r {
                Some(n) => next_free(self@.level, class, from as int) == Some(n as int) && from
                    <= n <= LAST_FREE,
                None => next_free(self@.level, class, from as int) is None,
            },
    {
        let mut n: u16 = from;
        while n <= LAST_FREE
            invariant
                self.wf(),
                1 <= from <= n <= 10000,
                next_free(self@.level, class, from as int) == next_free(
                    self@.level,
                    class,
                    n as int,
                ),
            decreases 10000 - n,
        {
            let group_sig = match class {
                IdClass::Group => n == SPWN_SIGNATURE_GROUP,
                _ => false,
            };
            if !self.level.contains(class, n) && !group_sig {
                return Some(n);
            }
            n += 1;
        }
        None
    }

    /// Resolves the id `id` of `class` and gives its number.
    pub fn resolve(&mut self, class: IdClass, id: u16, arbitrary: bool) -> (n: u16)
        requires
            old(self).wf(),
        ensures
            final(self).wf(),
            n == old(self)@.number_of(class, id, arbitrary),
            final(self)@ == old(self)@.after(class, id, arbitrary),
            arbitrary ==> 1 <= n <= LAST_FREE,
    {
        if !arbitrary {
            match class {
                IdClass::Group => self.group.closed.insert(id),
                IdClass::Color => self.color.closed.insert(id),
                IdClass::Block => self.block.closed.insert(id),
                IdClass::Item => self.item.closed.insert(id),
            }
            return id;
        }
        let (known, cursor) = match class {
            IdClass::Group => (self.group.given[id as usize], self.group.cursor),
            IdClass::Color => (self.color.given[id as usize], self.color.cursor),
            IdClass::Block => (self.block.given[id as usize], self.block.cursor),
            IdClass::Item => (self.item.given[id as usize], self.item.cursor),
        };
        if known != 0 {
            return known;
        }
        let (n, next): (u16, u16) = match self.find_free(class, cursor) {
            Some(f) => (f, f + 1),
            None => (FALLBACK_ID, 10000),
        };
        match class {
            IdClass::Group => {
                self.group.closed.insert(n);
                self.group.cursor = next;
                self.group.given.set(id as usize, n);
                assert(self.group@.given =~= old(self).group@.given.insert(id as int, n as int));
            },
            IdClass::Color => {
                self.color.closed.insert(n);
                self.color.cursor = next;
                self.color.given.set(id as usize, n);
                assert(self.color@.given =~= old(self).color@.given.insert(id as int, n as int));
            },
            IdClass::Block => {
                self.block.closed.insert(n);
                self.block.cursor = next;
                self.block.given.set(id as usize, n);
                assert(self.block@.given =~= old(self).block@.given.insert(id as int, n as int));
            },
            IdClass::Item => {
                self.item.closed.insert(n);
                self.item.cursor = next;
                self.item.given.set(id as usize, n);
                assert(self.item@.given =~= old(self).item@.given.insert(id as int, n as int));
            },
        }
        n
    }
}

impl Resolver {
    /// Resolves the ids of a list of groups, one after another.
    pub fn resolve_groups(&mut self, l: &Vec<Group>) -> (r: Vec<Group>)
        requires
            old(self).wf(),
        ensures
            final(self).wf(),
            r@ == old(self)@.groups(l@),
            final(self)@ == old(self)@.after_groups(l@),
            forall|i: int| 0 <= i < r@.len() ==> !(#[trigger] r@[i]).arbitrary,
    {
        let mut r: Vec<Group> = Vec::new();
        let mut i: usize = 0;
        assert(l@.take(0) =~= Seq::empty());
        while i < l.len()
            invariant
                i <= l.len(),
                self.wf(),
                r@ == old(self)@.groups(l@.take(i as int)),
                self@ == old(self)@.after_groups(l@.take(i as int)),
                forall|j: int| 0 <= j < r@.len() ==> !(#[trigger] r@[j]).arbitrary,
            decreases l.len() - i,
        {
            assert(l@.take(i + 1).drop_last() =~= l@.take(i as int));
            assert(l@.take(i + 1).last() == l@[i as int]);
            let n = self.resolve(IdClass::Group, l[i].id, l[i].arbitrary);
            r.push(Group { id: n, arbitrary: false });
            i += 1;
        }
        assert(l@.take(l.len() as int) =~= l@);
        r
    }

    /// Resolves the ids of a parameter.
    pub fn resolve_param(&mut self, p: &ObjParam) -> (r: ObjParam)
        requires
            old(self).wf(),
        ensures
            final(self).wf(),
            r@ == old(self)@.param(p@),
            final(self)@ == old(self)@.after_param(p@),
            param_resolved(r@),
    {
        match p {
            ObjParam::Group(g) => ObjParam::Group(
                Group { id: self.resolve(IdClass::Group, g.id, g.arbitrary), arbitrary: false },
            ),
            ObjParam::Color(g) => ObjParam::Color(
                Color { id: self.resolve(IdClass::Color, g.id, g.arbitrary), arbitrary: false },
            ),
            ObjParam::Block(g) => ObjParam::Block(
                Block { id: self.resolve(IdClass::Block, g.id, g.arbitrary), arbitrary: false },
            ),
            ObjParam::Item(g) => ObjParam::Item(
                Item { id: self.resolve(IdClass::Item, g.id, g.arbitrary), arbitrary: false },
            ),
            ObjParam::GroupList(l) => ObjParam::GroupList(self.resolve_groups(l)),
            _ => p.copy(),
        }
    }

    /// Resolves the ids of an object, parameter by parameter in the order of
    /// their keys.
    pub fn resolve_object(&mut self, obj: &GdObj) -> (r: GdObj)
        requires
            old(self).wf(),
        ensures
            final(self).wf(),
            r@.mode == obj@.mode,
            r@.params == old(self)@.params(obj@.params),
            final(self)@ == old(self)@.after_params(obj@.params),
            obj.wf() ==> r.wf(),
            object_resolved(r@),
    {
        let mut params: Vec<(u16, ObjParam)> = Vec::new();
        let ghost ps = obj@.params;
        let mut i: usize = 0;
        assert(ps.take(0) =~= Seq::empty());
        while i < obj.params.len()
            invariant
                i <= obj.params.len(),
                self.wf(),
                ps == obj@.params,
                params@.len() == i,
                params@.map_values(|p: (u16, ObjParam)| (p.0, p.1@)) == old(self)@.params(
                    ps.take(i as int),
                ),
                self@ == old(self)@.after_params(ps.take(i as int)),
                forall|j: int| 0 <= j < i ==> (#[trigger] params@[j]).0 == obj.params@[j].0,
                forall|j: int| 0 <= j < i ==> param_resolved((#[trigger] params@[j]).1@),
            decreases obj.params.len() - i,
        {
            assert(ps.take(i + 1).drop_last() =~= ps.take(i as int));
            assert(ps.take(i + 1).last() == ps[i as int]);
            assert(ps[i as int] == (obj.params@[i as int].0, obj.params@[i as int].1@));
            let ghost done = params@.map_values(|p: (u16, ObjParam)| (p.0, p.1@));
            let q = self.resolve_param(&obj.params[i].1);
            params.push((obj.params[i].0, q));
            assert(params@.map_values(|p: (u16, ObjParam)| (p.0, p.1@)) =~= done.push(
                (obj.params@[i as int].0, q@),
            ));
            i += 1;
        }
        assert(ps.take(obj.params.len() as int) =~= ps);
        let r = GdObj { params, mode: obj.mode };
        assert(obj.wf() ==> r.wf()) by {
            if obj.wf() {
                assert forall|a: int, b: int| 0 <= a < b < r@.params.len() implies r@.params[a].0
                    < r@.params[b].0 by {
                    assert(r@.params[a].0 == params@[a].0);
                    assert(r@.params[b].0 == params@[b].0);
                    assert(obj@.params[a].0 < obj@.params[b].0);
                }
            }
        }
        assert forall|j: int| 0 <= j < r@.params.len() implies param_resolved(
            (#[trigger] r@.params[j]).1,
        ) by {
            assert(r@.params[j].1 == params@[j].1@);
        }
        r
    }

    /// Resolves the ids of the objects, one object after another.
    pub fn resolve_objects(&mut self, objs: &Vec<GdObj>) -> (r: Vec<GdObj>)
        requires
            old(self).wf(),
        ensures
            final(self).wf(),
            objects_view(r@) == old(self)@.objects(objects_view(objs@)),
            final(self)@ == old(self)@.after_objects(objects_view(objs@)),
            r@.len() == objs@.len(),
            forall|i: int| 0 <= i < r@.len() ==> (objs@[i].wf() ==> (#[trigger] r@[i]).wf()),
            forall|i: int| 0 <= i < r@.len() ==> object_resolved((#[trigger] r@[i])@),
    {
        let mut r: Vec<GdObj> = Vec::new();
        let ghost ov = objects_view(objs@);
        let mut i: usize = 0;
        assert(ov.take(0) =~= Seq::empty());
        assert(objects_view(r@) =~= Seq::empty());
        while i < objs.len()
            invariant
                i <= objs.len(),
                self.wf(),
                ov == objects_view(objs@),
                r@.len() == i,
                objects_view(r@) == old(self)@.objects(ov.take(i as int)),
                self@ == old(self)@.after_objects(ov.take(i as int)),
                forall|k: int| 0 <= k < i ==> (objs@[k].wf() ==> (#[trigger] r@[k]).wf()),
                forall|k: int| 0 <= k < i ==> object_resolved((#[trigger] r@[k])@),
            decreases objs.len() - i,
        {
            assert(ov.take(i + 1).drop_last() =~= ov.take(i as int));
            assert(ov.take(i + 1).last() == objs@[i as int]@);
            let ghost done = objects_view(r@);
            let o = self.resolve_object(&objs[i]);
            r.push(o);
            assert(objects_view(r@) =~= done.push(r@[i as int]@));
            i += 1;
        }
        assert(ov.take(objs.len() as int) =~= ov);
        r
    }

    /// The first class, in the order group, color, block, item, of which
    /// more than 999 ids are taken, with their number.
    pub fn over_limit(&self) -> (r: Option<(IdClass, usize)>)
        requires
            self.wf(),
        ensures
            r == exceeding(self@),
    {
        if self.group.closed.len() > ID_MAX {
            Some((IdClass::Group, self.group.closed.len()))
        } else if self.color.closed.len() > ID_MAX {
            Some((IdClass::Color, self.color.closed.len()))
        } else if self.block.closed.len() > ID_MAX {
            Some((IdClass::Block, self.block.closed.len()))
        } else if self.item.closed.len() > ID_MAX {
            Some((IdClass::Item, self.item.closed.len()))
        } else {
            None
        }
    }
}

/// The mathematical values of a list of objects.
pub open spec fn objects_view(objs: Seq<GdObj>) -> Seq<GdObjView> {
    objs.map_values(|o: GdObj| o@)
}

/// The first class, in the order group, color, block, item, of which more
/// than 999 ids are taken, with their number.
pub open spec fn exceeding(st: ResolverView) -> Option<(IdClass, usize)> {
    if st.group.closed.len() > ID_MAX {
        Some((IdClass::Group, st.group.closed.len() as usize))
    } else if st.color.closed.len() > ID_MAX {
        Some((IdClass::Color, st.color.closed.len() as usize))
    } else if st.block.closed.len() > ID_MAX {
        Some((IdClass::Block, st.block.closed.len() as usize))
    } else if st.item.closed.len() > ID_MAX {
        Some((IdClass::Item, st.item.closed.len() as usize))
    } else {
        None
    }
}

/// Whether `s` is the text of the objects, one after another. The text of
/// an object is that of its parameters with the signature group put in; the
/// text of a number is left to the floating-point unit.
pub open spec fn writes(objs: Seq<GdObjView>, s: Seq<char>) -> bool
    decreases objs.len(),
{
    if objs.len() == 0 {
        s == Seq::<char>::empty()
    } else {
        exists|head: Seq<char>, pairs: Seq<(u16, Seq<char>)>|
            writes(objs.drop_last(), head) && #[trigger] ends_with(s, head, pairs, objs.last())
    }
}

/// Whether `s` is `head` and then the text of the object `last`, `pairs`
/// being its parameters put into text.
pub open spec fn ends_with(
    s: Seq<char>,
    head: Seq<char>,
    pairs: Seq<(u16, Seq<char>)>,
    last: GdObjView,
) -> bool {
    renders(signed_params(last.params), pairs) && s == head + object_text(pairs, last.mode)
}

/// The text of the objects, one after another.
pub fn serialize_all<F: FloatUnit>(objs: Vec<GdObj>, fl: &F) -> (r: String)
    requires
        forall|i: int| 0 <= i < objs@.len() ==> (#[trigger] objs@[i]).wf(),
    ensures
        writes(objects_view(objs@), r@),
{
    let mut s = String::new();
    let ghost ov = objects_view(objs@);
    let mut i: usize = 0;
    assert(ov.take(0) =~= Seq::empty());
    while i < objs.len()
        invariant
            i <= objs.len(),
            ov == objects_view(objs@),
            forall|k: int| 0 <= k < objs@.len() ==> (#[trigger] objs@[k]).wf(),
            writes(ov.take(i as int), s@),
        decreases objs.len() - i,
    {
        let ghost head = s@;
        assert(ov.take(i + 1).drop_last() =~= ov.take(i as int));
        assert(ov.take(i + 1).last() == objs@[i as int]@);
        let t = serialize_obj(objs[i].copy(), fl);
        s.append(t.as_str());
        proof {
            let pairs = choose|pairs: Seq<(u16, Seq<char>)>| #[trigger]
                renders(signed_params(objs@[i as int]@.params), pairs) && t@ == object_text(
                    pairs,
                    objs@[i as int]@.mode,
                );
            assert(ends_with(s@, head, pairs, ov.take(i + 1).last()));
        }
        i += 1;
    }
    assert(ov.take(objs.len() as int) =~= ov);
    s
}

/// What [`append_objects`] returns for the objects `objs` and the level
/// string `ls`: an error where an id in the level cannot be read or where,
/// once every arbitrary id has its number, a class has more than 999 ids
/// taken; else the text of the resolved objects and, class by class, the
/// number of ids taken.
pub open spec fn appended(
    objs: Seq<GdObjView>,
    ls: Seq<char>,
    r: Result<(Seq<char>, Seq<usize>), RuntimeErrorView>,
) -> bool {
    let start = ResolverView::start(used_ids(ls));
    let end = start.after_objects(objs);
    if !level_parses(ls) {
        r == Err::<(Seq<char>, Seq<usize>), RuntimeErrorView>(RuntimeErrorView::MalformedLevel)
    } else {
        match exceeding(end) {
            Some(over) => r == Err::<(Seq<char>, Seq<usize>), RuntimeErrorView>(
                RuntimeErrorView::LevelLimitExceeded { class: over.0, actual: over.1, max: ID_MAX },
            ),
            None => r matches Ok(out) && writes(start.objects(objs), out.0) && out.1 == seq![
                end.group.closed.len() as usize,
                end.color.closed.len() as usize,
                end.block.closed.len() as usize,
                end.item.closed.len() as usize,
            ],
        }
    }
}

/// The mathematical value of what [`append_objects`] returns.
pub open spec fn appended_view(r: Result<(String, [usize; 4]), RuntimeError>) -> Result<
    (Seq<char>, Seq<usize>),
    RuntimeErrorView,
> {
    match r {
        Ok(out) => Ok((out.0@, out.1@)),
        Err(e) => Err(e@),
    }
}

/// Resolves the arbitrary ids of `objects` against the level string `old_ls`
/// and gives the text to append to it, with the number of ids of each class
/// that are then taken.
pub fn append_objects<F: FloatUnit>(objects: Vec<GdObj>, old_ls: &str, fl: &F) -> (r: Result<
    (String, [usize; 4]),
    RuntimeError,
>)
    requires
        forall|i: int| 0 <= i < objects@.len() ==> (#[trigger] objects@[i]).wf(),
    ensures
        appended(objects_view(objects@), old_ls@, appended_view(r)),
{
    let used = match get_used_ids(old_ls) {
        Some(u) => u,
        None => {
            return Err(RuntimeError::MalformedLevel);
        },
    };
    let mut resolver = Resolver::new(used);
    let resolved = resolver.resolve_objects(&objects);
    match resolver.over_limit() {
        Some(over) => {
            return Err(
                RuntimeError::LevelLimitExceeded { class: over.0, actual: over.1, max: ID_MAX },
            );
        },
        None => {},
    }
    let counts = [
        resolver.group.closed.len(),
        resolver.color.closed.len(),
        resolver.block.closed.len(),
        resolver.item.closed.len(),
    ];
    let text = serialize_all(resolved, fl);
    assert(counts@ =~= seq![
        resolver@.group.closed.len() as usize,
        resolver@.color.closed.len() as usize,
        resolver@.block.closed.len() as usize,
        resolver@.item.closed.len() as usize,
    ]);
    Ok((text, counts))
}

} // verus!
