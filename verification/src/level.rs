//! Reading a level string: its objects, their properties, and the ids that
//! it occupies.

use vstd::prelude::*;
use crate::ids::IdClass;
use crate::serialize::pairs_text;
use crate::text::{
    chars_of, join, lemma_split_nonempty, numeral, parse_u16, parsed_u16, split, split_bounds,
};

verus! {

/// A property of an object as the level string has it: the text of its key
/// and the text of its value.
pub type Prop = (Seq<char>, Seq<char>);

/// The properties of an object text: its pieces between commas, taken two by
/// two. A piece left over at the end is no property.
pub open spec fn props_of(obj: Seq<char>) -> Seq<Prop> {
    let t = split(obj, ',');
    Seq::new((t.len() / 2) as nat, |i: int| (t[2 * i], t[2 * i + 1]))
}

/// The value of the property `key`: that of the last property with this key.
pub open spec fn prop_value(props: Seq<Prop>, key: Seq<char>) -> Option<Seq<char>>
    decreases props.len(),
{
    if props.len() == 0 {
        None
    } else if props.last().0 == key {
        Some(props.last().1)
    } else {
        prop_value(props.drop_last(), key)
    }
}

/// Whether no later property has the key of property `i`.
pub open spec fn is_last(props: Seq<Prop>, i: int) -> bool {
    forall|j: int| i < j < props.len() ==> (#[trigger] props[j]).0 != props[i].0
}

/// Splitting a text that ends in a piece without the separator: the piece
/// goes onto the last piece of what stands before it.
pub proof fn lemma_split_append(s: Seq<char>, t: Seq<char>, sep: char)
    requires
        forall|i: int| 0 <= i < t.len() ==> t[i] != sep,
    ensures
        split(s + t, sep) == split(s, sep).drop_last().push(split(s, sep).last() + t),
    decreases t.len(),
{
    lemma_split_nonempty(s, sep);
    if t.len() == 0 {
        assert(s + t =~= s);
        assert(split(s, sep).last() + t =~= split(s, sep).last());
        assert(split(s, sep).drop_last().push(split(s, sep).last()) =~= split(s, sep));
    } else {
        let t0 = t.drop_last();
        lemma_split_append(s, t0, sep);
        assert((s + t).drop_last() =~= s + t0);
        assert((s + t).last() == t.last());
        let before = split(s + t0, sep);
        assert(before.last().push(t.last()) =~= split(s, sep).last() + t);
        assert(before.drop_last() =~= split(s, sep).drop_last());
    }
}

/// Splitting a text that ends in the separator gives an empty last piece.
pub proof fn lemma_split_sep(s: Seq<char>, sep: char)
    ensures
        split(s + seq![sep], sep) == split(s, sep).push(Seq::<char>::empty()),
{
    assert((s + seq![sep]).drop_last() =~= s);
}

/// A numeral holds digits only.
pub proof fn lemma_numeral_digits(n: nat, i: int)
    requires
        0 <= i < numeral(n).len(),
    ensures
        numeral(n)[i] != ',',
        numeral(n)[i] != ';',
        numeral(n)[i] != '.',
    decreases n,
{
    if n >= 10 {
        if i < numeral(n / 10).len() {
            lemma_numeral_digits(n / 10, i);
        }
    }
}

/// The keys and texts of parameters, one after another.
pub open spec fn flat(pairs: Seq<(u16, Seq<char>)>) -> Seq<Seq<char>>
    decreases pairs.len(),
{
    if pairs.len() == 0 {
        Seq::<Seq<char>>::empty()
    } else {
        flat(pairs.drop_last()).push(numeral(pairs.last().0 as nat)).push(pairs.last().1)
    }
}

/// Whether no text of the parameters holds a comma.
pub open spec fn comma_free(pairs: Seq<(u16, Seq<char>)>) -> bool {
    forall|i: int, j: int|
        0 <= i < pairs.len() && 0 <= j < pairs[i].1.len() ==> #[trigger] pairs[i].1[j] != ','
}

/// The pieces between the commas of the text of parameters are their keys
/// and texts and an empty piece at the end.
pub proof fn lemma_pairs_text_pieces(pairs: Seq<(u16, Seq<char>)>)
    requires
        comma_free(pairs),
    ensures
        split(pairs_text(pairs), ',') == flat(pairs).push(Seq::<char>::empty()),
        flat(pairs).len() == 2 * pairs.len(),
    decreases pairs.len(),
{
    if pairs.len() == 0 {
        assert(split(pairs_text(pairs), ',') =~= flat(pairs).push(Seq::<char>::empty()));
    } else {
        let rest = pairs.drop_last();
        let k = numeral(pairs.last().0 as nat);
        let v = pairs.last().1;
        assert(comma_free(rest)) by {
            assert forall|i: int, j: int|
                0 <= i < rest.len() && 0 <= j < rest[i].1.len() implies #[trigger] rest[i].1[j]
                != ',' by {
                assert(rest[i] == pairs[i]);
                assert(pairs[i].1[j] != ',');
            }
        }
        lemma_pairs_text_pieces(rest);
        let s0 = pairs_text(rest);
        assert forall|i: int| 0 <= i < k.len() implies k[i] != ',' by {
            lemma_numeral_digits(pairs.last().0 as nat, i);
        }
        assert forall|i: int| 0 <= i < v.len() implies v[i] != ',' by {
            assert(pairs[pairs.len() - 1].1[i] != ',');
        }
        lemma_split_append(s0, k, ',');
        lemma_split_sep(s0 + k, ',');
        lemma_split_append(s0 + k + seq![','], v, ',');
        lemma_split_sep(s0 + k + seq![','] + v, ',');
        assert(split(pairs_text(pairs), ',') =~= flat(pairs).push(Seq::<char>::empty()));
    }
}

/// Reading the parameters of an object back from its text gives each key,
/// as a numeral, with its text, in the same order: nothing is lost and
/// nothing is added.
pub proof fn lemma_props_round_trip(pairs: Seq<(u16, Seq<char>)>)
    requires
        comma_free(pairs),
    ensures
        props_of(pairs_text(pairs)) == pairs.map_values(
            |p: (u16, Seq<char>)| (numeral(p.0 as nat), p.1),
        ),
{
    lemma_pairs_text_pieces(pairs);
    let t = split(pairs_text(pairs), ',');
    let want = pairs.map_values(|p: (u16, Seq<char>)| (numeral(p.0 as nat), p.1));
    assert(t.len() == 2 * pairs.len() + 1);
    assert forall|i: int| 0 <= i < pairs.len() implies props_of(pairs_text(pairs))[i]
        == want[i] by {
        lemma_flat_at(pairs, i);
    }
    assert(props_of(pairs_text(pairs)) =~= want);
}

/// Where the key and the text of parameter `i` stand among the pieces.
pub proof fn lemma_flat_at(pairs: Seq<(u16, Seq<char>)>, i: int)
    requires
        0 <= i < pairs.len(),
    ensures
        flat(pairs).len() == 2 * pairs.len(),
        flat(pairs)[2 * i] == numeral(pairs[i].0 as nat),
        flat(pairs)[2 * i + 1] == pairs[i].1,
    decreases pairs.len(),
{
    lemma_flat_len(pairs);
    lemma_flat_len(pairs.drop_last());
    if i < pairs.len() - 1 {
        lemma_flat_at(pairs.drop_last(), i);
    }
}

/// Two pieces for each parameter.
pub proof fn lemma_flat_len(pairs: Seq<(u16, Seq<char>)>)
    ensures
        flat(pairs).len() == 2 * pairs.len(),
    decreases pairs.len(),
{
    if pairs.len() > 0 {
        lemma_flat_len(pairs.drop_last());
    }
}

/// The number of ids that 16 bits hold.
pub const ID_SPACE: usize = 65536;

/// `fnv::FnvHasher`, the hasher of the set below: carried through, never
/// looked into.
#[verifier::external_type_specification]
#[verifier::external_body]
pub struct ExFnvHasher(fnv::FnvHasher);

/// `std::hash::BuildHasherDefault`, which makes the hashers of the set
/// below: carried through, never looked into.
#[verifier::external_type_specification]
#[verifier::external_body]
#[verifier::reject_recursive_types(H)]
pub struct ExBuildHasherDefault<H>(std::hash::BuildHasherDefault<H>);

/// The numbers that a hash set of ids holds.
pub uninterp spec fn id_numbers(s: fnv::FnvHashSet<u16>) -> Set<int>;

/// `FnvHashSet::default`: a set with nothing in it.
#[verifier::external_body]
fn ids_new() -> (s: fnv::FnvHashSet<u16>)
    ensures
        id_numbers(s) == Set::<int>::empty(),
{
    fnv::FnvHashSet::default()
}

/// `HashSet::insert`, on the hash set of `fnv`: the set then holds the id
/// besides what it held, and the result says whether the id is new to it.
#[verifier::external_body]
fn ids_insert(s: &mut fnv::FnvHashSet<u16>, id: u16) -> (r: bool)
    ensures
        id_numbers(*final(s)) == id_numbers(*old(s)).insert(id as int),
        r == !id_numbers(*old(s)).contains(id as int),
{
    s.insert(id)
}

/// `HashSet::contains`, on the hash set of `fnv`: whether the set holds the
/// id.
#[verifier::external_body]
fn ids_contains(s: &fnv::FnvHashSet<u16>, id: u16) -> (r: bool)
    ensures
        r == id_numbers(*s).contains(id as int),
{
    s.contains(&id)
}

/// `HashSet::len`, on the hash set of `fnv`: how many ids the set holds.
#[verifier::external_body]
fn ids_len(s: &fnv::FnvHashSet<u16>) -> (n: usize)
    ensures
        n == id_numbers(*s).len(),
{
    s.len()
}

/// `HashSet::clone`, on the hash set of `fnv`: a set that holds the same
/// ids.
#[verifier::external_body]
fn ids_copy(s: &fnv::FnvHashSet<u16>) -> (r: fnv::FnvHashSet<u16>)
    ensures
        id_numbers(r) == id_numbers(*s),
{
    s.clone()
}

/// A set of ids of one class.
pub struct IdSet {
    pub set: fnv::FnvHashSet<u16>,
}

impl IdSet {
    /// The ids in the set.
    pub open spec fn ids(&self) -> Set<int> {
        id_numbers(self.set)
    }

    /// The invariant: the set is finite and holds numbers of 16 bits only.
    pub open spec fn wf(&self) -> bool {
        &&& self.ids().finite()
        &&& forall|i: int| self.ids().contains(i) ==> 0 <= i < ID_SPACE
    }

    /// The empty set.
    pub fn new() -> (r: IdSet)
        ensures
            r.wf(),
            r.ids() == Set::<int>::empty(),
    {
        IdSet { set: ids_new() }
    }

    /// Whether `id` is in the set.
    pub fn contains(&self, id: u16) -> (r: bool)
        requires
            self.wf(),
        ensures
            r == self.ids().contains(id as int),
    {
        ids_contains(&self.set, id)
    }

    /// Puts `id` into the set.
    pub fn insert(&mut self, id: u16)
        requires
            old(self).wf(),
        ensures
            final(self).wf(),
            final(self).ids() == old(self).ids().insert(id as int),
    {
        ids_insert(&mut self.set, id);
    }

    /// The number of ids in the set.
    pub fn len(&self) -> (n: usize)
        requires
            self.wf(),
        ensures
            n == self.ids().len(),
    {
        ids_len(&self.set)
    }

    /// A set of the same ids.
    pub fn copy(&self) -> (r: IdSet)
        requires
            self.wf(),
        ensures
            r.wf(),
            r.ids() == self.ids(),
    {
        IdSet { set: ids_copy(&self.set) }
    }
}

/// The ids of the four classes.
pub struct UsedIds {
    pub group: IdSet,
    pub color: IdSet,
    pub block: IdSet,
    pub item: IdSet,
}

/// The mathematical value of [`UsedIds`].
pub struct UsedView {
    pub group: Set<int>,
    pub color: Set<int>,
    pub block: Set<int>,
    pub item: Set<int>,
}

impl UsedView {
    /// No id of any class.
    pub open spec fn empty() -> UsedView {
        UsedView {
            group: Set::<int>::empty(),
            color: Set::<int>::empty(),
            block: Set::<int>::empty(),
            item: Set::<int>::empty(),
        }
    }

    /// The ids of one class.
    pub open spec fn of(self, class: IdClass) -> Set<int> {
        match class {
            IdClass::Group => self.group,
            IdClass::Color => self.color,
            IdClass::Block => self.block,
            IdClass::Item => self.item,
        }
    }

    /// The same with the ids of one class replaced.
    pub open spec fn with(self, class: IdClass, ids: Set<int>) -> UsedView {
        match class {
            IdClass::Group => UsedView { group: ids, ..self },
            IdClass::Color => UsedView { color: ids, ..self },
            IdClass::Block => UsedView { block: ids, ..self },
            IdClass::Item => UsedView { item: ids, ..self },
        }
    }
}

impl View for UsedIds {
    type V = UsedView;

    open spec fn view(&self) -> UsedView {
        UsedView {
            group: self.group.ids(),
            color: self.color.ids(),
            block: self.block.ids(),
            item: self.item.ids(),
        }
    }
}

impl UsedIds {
    /// The invariant: that of each of the four sets.
    pub open spec fn wf(&self) -> bool {
        self.group.wf() && self.color.wf() && self.block.wf() && self.item.wf()
    }

    /// No id of any class.
    pub fn new() -> (r: UsedIds)
        ensures
            r.wf(),
            r@ == UsedView::empty(),
    {
        UsedIds { group: IdSet::new(), color: IdSet::new(), block: IdSet::new(), item: IdSet::new() }
    }

    /// Puts `id` into the set of `class`.
    pub fn insert(&mut self, class: IdClass, id: u16)
        requires
            old(self).wf(),
        ensures
            final(self).wf(),
            final(self)@ == old(self)@.with(class, old(self)@.of(class).insert(id as int)),
    {
        match class {
            IdClass::Group => self.group.insert(id),
            IdClass::Color => self.color.insert(id),
            IdClass::Block => self.block.insert(id),
            IdClass::Item => self.item.insert(id),
        }
    }

    /// Whether `id` is in the set of `class`.
    pub fn contains(&self, class: IdClass, id: u16) -> (r: bool)
        requires
            self.wf(),
        ensures
            r == self@.of(class).contains(id as int),
    {
        match class {
            IdClass::Group => self.group.contains(id),
            IdClass::Color => self.color.contains(id),
            IdClass::Block => self.block.contains(id),
            IdClass::Item => self.item.contains(id),
        }
    }

    /// The number of ids in the set of `class`.
    pub fn len(&self, class: IdClass) -> (n: usize)
        requires
            self.wf(),
        ensures
            n == self@.of(class).len(),
    {
        match class {
            IdClass::Group => self.group.len(),
            IdClass::Color => self.color.len(),
            IdClass::Block => self.block.len(),
            IdClass::Item => self.item.len(),
        }
    }
}

/// The class of the id that property 51 names: a pulse trigger (object
/// 1006) names a color, unless its property 52 is `1`; anything else names a
/// group.
pub open spec fn class_of_target(props: Seq<Prop>) -> IdClass {
    if prop_value(props, "1"@) == Some("1006"@) && prop_value(props, "52"@) != Some("1"@) {
        IdClass::Color
    } else {
        IdClass::Group
    }
}

/// The class of the id that property 80 names: a block for the collision
/// objects 1815 and 1816, none for the counter 1615, an item otherwise.
pub open spec fn class_of_item(props: Seq<Prop>) -> Option<IdClass> {
    let kind = prop_value(props, "1"@);
    if kind == Some("1815"@) || kind == Some("1816"@) {
        Some(IdClass::Block)
    } else if kind == Some("1615"@) {
        None
    } else {
        Some(IdClass::Item)
    }
}

/// The class of the ids that the property `key` names, if it names any.
pub open spec fn id_class(props: Seq<Prop>, key: Seq<char>) -> Option<IdClass> {
    if key == "57"@ || key == "71"@ {
        Some(IdClass::Group)
    } else if key == "51"@ {
        Some(class_of_target(props))
    } else if key == "21"@ || key == "22"@ || key == "23"@ {
        Some(IdClass::Color)
    } else if key == "80"@ {
        class_of_item(props)
    } else if key == "95"@ {
        Some(IdClass::Block)
    } else {
        None
    }
}

/// The texts of the ids in the value of the property `key`: the value of
/// property 57 lists them with `.` between, any other value is one id.
pub open spec fn id_pieces(key: Seq<char>, value: Seq<char>) -> Seq<Seq<char>> {
    if key == "57"@ {
        split(value, '.')
    } else {
        seq![value]
    }
}

/// The set with the ids that the pieces read as. A piece that reads as none
/// adds nothing.
pub open spec fn with_pieces(s: Set<int>, pieces: Seq<Seq<char>>) -> Set<int>
    decreases pieces.len(),
{
    if pieces.len() == 0 {
        s
    } else {
        let r = with_pieces(s, pieces.drop_last());
        match parsed_u16(pieces.last()) {
            Some(id) => r.insert(id as int),
            None => r,
        }
    }
}

/// Whether every piece reads as an id.
pub open spec fn pieces_parse(pieces: Seq<Seq<char>>) -> bool {
    forall|i: int| 0 <= i < pieces.len() ==> parsed_u16(#[trigger] pieces[i]) is Some
}

/// The ids with those that the first `n` properties of an object add. A
/// property counts only where no later one has its key.
pub open spec fn with_props(u: UsedView, props: Seq<Prop>, n: int) -> UsedView
    decreases n,
{
    if n <= 0 {
        u
    } else {
        let r = with_props(u, props, n - 1);
        let e = props[n - 1];
        match id_class(props, e.0) {
            Some(c) => if is_last(props, n - 1) {
                r.with(c, with_pieces(r.of(c), id_pieces(e.0, e.1)))
            } else {
                r
            },
            None => r,
        }
    }
}

/// Whether the ids in the first `n` properties of an object can be read.
pub open spec fn props_parse(props: Seq<Prop>, n: int) -> bool
    decreases n,
{
    if n <= 0 {
        true
    } else {
        let e = props[n - 1];
        props_parse(props, n - 1) && (id_class(props, e.0) is Some && is_last(props, n - 1)
            ==> pieces_parse(id_pieces(e.0, e.1)))
    }
}

/// The ids with those that the objects add.
pub open spec fn with_objects(u: UsedView, objs: Seq<Seq<char>>) -> UsedView
    decreases objs.len(),
{
    if objs.len() == 0 {
        u
    } else {
        let props = props_of(objs.last());
        with_props(with_objects(u, objs.drop_last()), props, props.len() as int)
    }
}

/// Whether the ids in the objects can be read.
pub open spec fn objects_parse(objs: Seq<Seq<char>>) -> bool
    decreases objs.len(),
{
    if objs.len() == 0 {
        true
    } else {
        let props = props_of(objs.last());
        objects_parse(objs.drop_last()) && props_parse(props, props.len() as int)
    }
}

/// The ids that a level string occupies, class by class: the groups that
/// properties 57, 71 and, mostly, 51 name; the colors of properties 21, 22
/// and 23; the blocks of property 95; and the blocks or items of property
/// 80.
pub open spec fn used_ids(ls: Seq<char>) -> UsedView {
    with_objects(UsedView::empty(), split(ls, ';'))
}

/// Whether every id in the level string can be read.
pub open spec fn level_parses(ls: Seq<char>) -> bool {
    objects_parse(split(ls, ';'))
}

/// Whether `chars[a..b]` is the text `lit`.
fn range_is(chars: &Vec<char>, a: usize, b: usize, lit: &str) -> (r: bool)
    requires
        a <= b <= chars.len(),
    ensures
        r == (chars@.subrange(a as int, b as int) == lit@),
{
    let l = chars_of(lit);
    assert(l@.subrange(0, l.len() as int) =~= l@);
    ranges_same(chars, a, b, &l, 0, l.len())
}

/// Whether `x[a..b]` and `y[c..d]` are the same text.
fn ranges_same(x: &Vec<char>, a: usize, b: usize, y: &Vec<char>, c: usize, d: usize) -> (r: bool)
    requires
        a <= b <= x.len(),
        c <= d <= y.len(),
    ensures
        r == (x@.subrange(a as int, b as int) == y@.subrange(c as int, d as int)),
{
    let ghost xs = x@.subrange(a as int, b as int);
    let ghost ys = y@.subrange(c as int, d as int);
    if b - a != d - c {
        assert(xs.len() != ys.len());
        return false;
    }
    let n = b - a;
    let mut i: usize = 0;
    while i < n
        invariant
            i <= n,
            n == b - a,
            n == d - c,
            a <= b <= x.len(),
            c <= d <= y.len(),
            xs == x@.subrange(a as int, b as int),
            ys == y@.subrange(c as int, d as int),
            forall|j: int| 0 <= j < i ==> xs[j] == ys[j],
        decreases n - i,
    {
        if x[a + i] != y[c + i] {
            assert(xs[i as int] != ys[i as int]);
            return false;
        }
        i += 1;
    }
    assert(xs =~= ys);
    true
}

/// Whether `toks` bound the pieces between the commas of `chars[a..b]`.
pub open spec fn bounds_props(
    chars: Seq<char>,
    a: int,
    b: int,
    toks: Seq<(usize, usize)>,
    props: Seq<Prop>,
) -> bool {
    &&& 0 <= a <= b <= chars.len()
    &&& props == props_of(chars.subrange(a, b))
    &&& props.len() == toks.len() / 2
    &&& forall|j: int|
        0 <= j < toks.len() ==> a <= (#[trigger] toks[j]).0 <= toks[j].1 <= b
    &&& forall|i: int|
        0 <= i < props.len() ==> (#[trigger] props[i]).0 == chars.subrange(
            toks[2 * i].0 as int,
            toks[2 * i].1 as int,
        ) && props[i].1 == chars.subrange(toks[2 * i + 1].0 as int, toks[2 * i + 1].1 as int)
}

/// The bounds of the value of the property `lit`, if the object has it.
fn lookup(
    chars: &Vec<char>,
    toks: &Vec<(usize, usize)>,
    lit: &str,
    Ghost(a): Ghost<int>,
    Ghost(b): Ghost<int>,
    Ghost(props): Ghost<Seq<Prop>>,
) -> (r: Option<(usize, usize)>)
    requires
        bounds_props(chars@, a, b, toks@, props),
    ensures
        match r {
            Some(v) => v.0 <= v.1 <= chars.len() && prop_value(props, lit@) == Some(
                chars@.subrange(v.0 as int, v.1 as int),
            ),
            None => prop_value(props, lit@) is None,
        },
{
    let n = toks.len() / 2;
    let mut i: usize = n;
    assert(props.take(n as int) =~= props);
    while i > 0
        invariant
            i <= n,
            n == toks.len() / 2,
            bounds_props(chars@, a, b, toks@, props),
            prop_value(props, lit@) == prop_value(props.take(i as int), lit@),
        decreases i,
    {
        i -= 1;
        let k = toks[2 * i];
        let v = toks[2 * i + 1];
        assert(props.take(i + 1).last() == props[i as int]);
        assert(props.take(i + 1).drop_last() =~= props.take(i as int));
        if range_is(chars, k.0, k.1, lit) {
            return Some(v);
        }
    }
    None
}

/// Whether `chars[v.0..v.1]`, where there is such a value, is the text `lit`.
fn value_is(chars: &Vec<char>, v: &Option<(usize, usize)>, lit: &str) -> (r: bool)
    requires
        v matches Some(x) ==> x.0 <= x.1 <= chars.len(),
    ensures
        r == (*v matches Some(x) && chars@.subrange(x.0 as int, x.1 as int) == lit@),
{
    match v {
        Some(x) => range_is(chars, x.0, x.1, lit),
        None => false,
    }
}

/// The class of the ids that property `i` names, if it names any.
fn key_class(
    chars: &Vec<char>,
    toks: &Vec<(usize, usize)>,
    i: usize,
    Ghost(a): Ghost<int>,
    Ghost(b): Ghost<int>,
    Ghost(props): Ghost<Seq<Prop>>,
) -> (r: Option<IdClass>)
    requires
        bounds_props(chars@, a, b, toks@, props),
        i < props.len(),
    ensures
        r == id_class(props, props[i as int].0),
{
    assert(i < toks.len() / 2);
    let k = toks[2 * i];
    assert(props[i as int].0 == chars@.subrange(k.0 as int, k.1 as int));
    if range_is(chars, k.0, k.1, "57") || range_is(chars, k.0, k.1, "71") {
        Some(IdClass::Group)
    } else if range_is(chars, k.0, k.1, "51") {
        let kind = lookup(chars, toks, "1", Ghost(a), Ghost(b), Ghost(props));
        let mode = lookup(chars, toks, "52", Ghost(a), Ghost(b), Ghost(props));
        if value_is(chars, &kind, "1006") && !value_is(chars, &mode, "1") {
            Some(IdClass::Color)
        } else {
            Some(IdClass::Group)
        }
    } else if range_is(chars, k.0, k.1, "21") || range_is(chars, k.0, k.1, "22") || range_is(
        chars,
        k.0,
        k.1,
        "23",
    ) {
        Some(IdClass::Color)
    } else if range_is(chars, k.0, k.1, "80") {
        let kind = lookup(chars, toks, "1", Ghost(a), Ghost(b), Ghost(props));
        if value_is(chars, &kind, "1815") || value_is(chars, &kind, "1816") {
            Some(IdClass::Block)
        } else if value_is(chars, &kind, "1615") {
            None
        } else {
            Some(IdClass::Item)
        }
    } else if range_is(chars, k.0, k.1, "95") {
        Some(IdClass::Block)
    } else {
        None
    }
}

/// Whether no later property has the key of property `i`.
fn last_of_key(
    chars: &Vec<char>,
    toks: &Vec<(usize, usize)>,
    i: usize,
    Ghost(a): Ghost<int>,
    Ghost(b): Ghost<int>,
    Ghost(props): Ghost<Seq<Prop>>,
) -> (r: bool)
    requires
        bounds_props(chars@, a, b, toks@, props),
        i < props.len(),
    ensures
        r == is_last(props, i as int),
{
    let n = toks.len() / 2;
    let k = toks[2 * i];
    let mut j: usize = i + 1;
    while j < n
        invariant
            i < j <= n,
            n == toks.len() / 2,
            n == props.len(),
            k == toks@[2 * i],
            bounds_props(chars@, a, b, toks@, props),
            forall|q: int| i < q < j ==> (#[trigger] props[q]).0 != props[i as int].0,
        decreases n - j,
    {
        let kj = toks[2 * j];
        assert(props[j as int].0 == chars@.subrange(kj.0 as int, kj.1 as int));
        assert(props[i as int].0 == chars@.subrange(k.0 as int, k.1 as int));
        if ranges_same(chars, k.0, k.1, chars, kj.0, kj.1) {
            assert(props[j as int].0 == props[i as int].0);
            return false;
        }
        j += 1;
    }
    true
}

/// Reads the ids in `chars[a..b]`, listed with `.` between where `dotted`,
/// into the set of `class`. Returns whether every one could be read.
#[verifier::loop_isolation(false)]
fn add_pieces(
    used: &mut UsedIds,
    class: IdClass,
    chars: &Vec<char>,
    a: usize,
    b: usize,
    dotted: bool,
) -> (r: bool)
    requires
        old(used).wf(),
        a <= b <= chars.len(),
    ensures
        final(used).wf(),
        ({
            let value = chars@.subrange(a as int, b as int);
            let pieces = if dotted {
                split(value, '.')
            } else {
                seq![value]
            };
            r == pieces_parse(pieces) && (r ==> final(used)@ == old(used)@.with(
                class,
                with_pieces(old(used)@.of(class), pieces),
            ))
        }),
{
    let ghost value = chars@.subrange(a as int, b as int);
    if dotted {
        let bounds = split_bounds(chars, a, b, '.');
        let ghost pieces = split(value, '.');
        let mut i: usize = 0;
        assert(pieces.take(0) =~= Seq::empty());
        assert(used@ =~= old(used)@.with(class, old(used)@.of(class)));
        while i < bounds.len()
            invariant
                i <= bounds.len(),
                used.wf(),
                a <= b <= chars.len(),
                bounds@.len() == pieces.len(),
                forall|j: int|
                    0 <= j < bounds@.len() ==> a <= (#[trigger] bounds@[j]).0 <= bounds@[j].1 <= b
                        && chars@.subrange(bounds@[j].0 as int, bounds@[j].1 as int) == pieces[j],
                pieces_parse(pieces.take(i as int)),
                used@ == old(used)@.with(
                    class,
                    with_pieces(old(used)@.of(class), pieces.take(i as int)),
                ),
            decreases bounds.len() - i,
        {
            let p = bounds[i];
            assert(pieces.take(i + 1).drop_last() =~= pieces.take(i as int));
            assert(pieces.take(i + 1).last() == pieces[i as int]);
            match parse_u16(chars, p.0, p.1) {
                Some(id) => {
                    used.insert(class, id);
                    assert(pieces_parse(pieces.take(i + 1))) by {
                        assert forall|j: int| 0 <= j < i + 1 implies parsed_u16(
                            #[trigger] pieces.take(i + 1)[j],
                        ) is Some by {
                            if j < i {
                                assert(pieces.take(i as int)[j] == pieces[j]);
                            }
                        }
                    }
                    assert(used@ =~= old(used)@.with(
                        class,
                        with_pieces(old(used)@.of(class), pieces.take(i + 1)),
                    ));
                },
                None => {
                    assert(!pieces_parse(pieces)) by {
                        assert(parsed_u16(pieces[i as int]) is None);
                    }
                    return false;
                },
            }
            i += 1;
        }
        assert(pieces.take(bounds.len() as int) =~= pieces);
        true
    } else {
        let ghost pieces = seq![value];
        let ghost s0 = old(used)@.of(class);
        assert(pieces.drop_last() =~= Seq::<Seq<char>>::empty());
        assert(pieces.last() == value);
        assert(with_pieces(s0, pieces.drop_last()) == s0);
        match parse_u16(chars, a, b) {
            Some(id) => {
                used.insert(class, id);
                assert(pieces[0] == value);
                assert(with_pieces(s0, pieces) == s0.insert(id as int));
                assert(pieces_parse(pieces));
                true
            },
            None => {
                assert(pieces[0] == value);
                assert(!pieces_parse(pieces));
                false
            },
        }
    }
}

/// Reads the ids of the object `chars[a..b]` into `used`. Returns whether
/// every one could be read.
fn add_object(used: &mut UsedIds, chars: &Vec<char>, a: usize, b: usize) -> (r: bool)
    requires
        old(used).wf(),
        a <= b <= chars.len(),
    ensures
        final(used).wf(),
        ({
            let props = props_of(chars@.subrange(a as int, b as int));
            r == props_parse(props, props.len() as int) && (r ==> final(used)@ == with_props(
                old(used)@,
                props,
                props.len() as int,
            ))
        }),
{
    let toks = split_bounds(chars, a, b, ',');
    let ghost obj = chars@.subrange(a as int, b as int);
    let ghost props = props_of(obj);
    let n = toks.len() / 2;
    assert(bounds_props(chars@, a as int, b as int, toks@, props));
    let mut i: usize = 0;
    while i < n
        invariant
            i <= n,
            n == toks.len() / 2,
            used.wf(),
            bounds_props(chars@, a as int, b as int, toks@, props),
            props_parse(props, i as int),
            used@ == with_props(old(used)@, props, i as int),
        decreases n - i,
    {
        let k = toks[2 * i];
        let v = toks[2 * i + 1];
        assert(props[i as int].0 == chars@.subrange(k.0 as int, k.1 as int));
        assert(props[i as int].1 == chars@.subrange(v.0 as int, v.1 as int));
        match key_class(chars, &toks, i, Ghost(a as int), Ghost(b as int), Ghost(props)) {
            Some(c) => {
                if last_of_key(chars, &toks, i, Ghost(a as int), Ghost(b as int), Ghost(props)) {
                    let dotted = range_is(chars, k.0, k.1, "57");
                    if !add_pieces(used, c, chars, v.0, v.1, dotted) {
                        proof {
                            lemma_props_parse_prefix(props, i + 1, props.len() as int);
                        }
                        return false;
                    }
                }
            },
            None => {},
        }
        i += 1;
    }
    true
}

/// Where the ids of the first `n` properties cannot be read, those of more
/// cannot either.
pub proof fn lemma_props_parse_prefix(props: Seq<Prop>, n: int, m: int)
    requires
        n <= m,
        !props_parse(props, n),
    ensures
        !props_parse(props, m),
    decreases m - n,
{
    if n < m {
        lemma_props_parse_prefix(props, n, m - 1);
    }
}

/// The ids that the level string `ls` occupies, or `None` where an id in it
/// cannot be read.
pub fn get_used_ids(ls: &str) -> (r: Option<UsedIds>)
    ensures
        match r {
            Some(u) => level_parses(ls@) && u.wf() && u@ == used_ids(ls@),
            None => !level_parses(ls@),
        },
{
    let chars = chars_of(ls);
    let bounds = split_bounds(&chars, 0, chars.len(), ';');
    assert(chars@.subrange(0, chars.len() as int) =~= chars@);
    let ghost objs = split(ls@, ';');
    let mut used = UsedIds::new();
    let mut i: usize = 0;
    assert(objs.take(0) =~= Seq::empty());
    while i < bounds.len()
        invariant
            i <= bounds.len(),
            used.wf(),
            chars@ == ls@,
            objs == split(ls@, ';'),
            bounds@.len() == objs.len(),
            forall|j: int|
                0 <= j < bounds@.len() ==> (#[trigger] bounds@[j]).0 <= bounds@[j].1 <= chars.len()
                    && chars@.subrange(bounds@[j].0 as int, bounds@[j].1 as int) == objs[j],
            objects_parse(objs.take(i as int)),
            used@ == with_objects(UsedView::empty(), objs.take(i as int)),
        decreases bounds.len() - i,
    {
        let o = bounds[i];
        assert(objs.take(i + 1).drop_last() =~= objs.take(i as int));
        assert(objs.take(i + 1).last() == objs[i as int]);
        if !add_object(&mut used, &chars, o.0, o.1) {
            proof {
                lemma_objects_parse_prefix(objs, i + 1);
            }
            return None;
        }
        i += 1;
    }
    assert(objs.take(bounds.len() as int) =~= objs);
    Some(used)
}

/// Where the ids of the first `n` objects cannot be read, those of all
/// cannot either.
pub proof fn lemma_objects_parse_prefix(objs: Seq<Seq<char>>, n: int)
    requires
        0 <= n <= objs.len(),
        !objects_parse(objs.take(n)),
    ensures
        !objects_parse(objs),
    decreases objs.len() - n,
{
    if n == objs.len() {
        assert(objs.take(n) =~= objs);
    } else {
        assert(objs.take(n + 1).drop_last() =~= objs.take(n));
        lemma_objects_parse_prefix(objs, n + 1);
    }
}

/// Whether a property of the object lists the signature group: whether a
/// property 57 has `1001` among the pieces of its value between dots.
pub open spec fn is_spwn_object(obj: Seq<char>) -> bool {
    exists|i: int| 0 <= i < props_of(obj).len() && #[trigger] names_signature(props_of(obj)[i])
}

/// Whether the property is a property 57 that lists the signature group.
pub open spec fn names_signature(p: Prop) -> bool {
    p.0 == "57"@ && exists|j: int|
        0 <= j < split(p.1, '.').len() && #[trigger] split(p.1, '.')[j] == "1001"@
}

/// The objects with those that list the signature group emptied.
pub open spec fn cleansed_objects(objs: Seq<Seq<char>>) -> Seq<Seq<char>> {
    objs.map_values(
        |o: Seq<char>|
            if is_spwn_object(o) {
                Seq::<char>::empty()
            } else {
                o
            },
    )
}

/// The level string with the objects that list the signature group emptied:
/// their text goes, their `;` stays.
pub open spec fn cleansed(ls: Seq<char>) -> Seq<char> {
    join(cleansed_objects(split(ls, ';')), ';')
}

/// Whether `chars[a..b]` lists `1001` between dots.
fn lists_signature(chars: &Vec<char>, a: usize, b: usize) -> (r: bool)
    requires
        a <= b <= chars.len(),
    ensures
        r == (exists|j: int|
            0 <= j < split(chars@.subrange(a as int, b as int), '.').len() && #[trigger] split(
                chars@.subrange(a as int, b as int),
                '.',
            )[j] == "1001"@),
{
    let bounds = split_bounds(chars, a, b, '.');
    let ghost pieces = split(chars@.subrange(a as int, b as int), '.');
    let mut j: usize = 0;
    while j < bounds.len()
        invariant
            j <= bounds.len(),
            pieces == split(chars@.subrange(a as int, b as int), '.'),
            bounds@.len() == pieces.len(),
            forall|q: int|
                0 <= q < bounds@.len() ==> a <= (#[trigger] bounds@[q]).0 <= bounds@[q].1 <= b
                    && chars@.subrange(bounds@[q].0 as int, bounds@[q].1 as int) == pieces[q],
            a <= b <= chars.len(),
            forall|q: int| 0 <= q < j ==> pieces[q] != "1001"@,
        decreases bounds.len() - j,
    {
        let p = bounds[j];
        if range_is(chars, p.0, p.1, "1001") {
            assert(pieces[j as int] == "1001"@);
            return true;
        }
        j += 1;
    }
    false
}

/// Whether the object `chars[a..b]` lists the signature group.
fn spwn_object(chars: &Vec<char>, a: usize, b: usize) -> (r: bool)
    requires
        a <= b <= chars.len(),
    ensures
        r == is_spwn_object(chars@.subrange(a as int, b as int)),
{
    let toks = split_bounds(chars, a, b, ',');
    let ghost props = props_of(chars@.subrange(a as int, b as int));
    let n = toks.len() / 2;
    assert(bounds_props(chars@, a as int, b as int, toks@, props));
    let mut i: usize = 0;
    while i < n
        invariant
            i <= n,
            n == toks.len() / 2,
            bounds_props(chars@, a as int, b as int, toks@, props),
            forall|q: int| 0 <= q < i ==> !names_signature(#[trigger] props[q]),
        decreases n - i,
    {
        let k = toks[2 * i];
        let v = toks[2 * i + 1];
        assert(props[i as int].0 == chars@.subrange(k.0 as int, k.1 as int));
        assert(props[i as int].1 == chars@.subrange(v.0 as int, v.1 as int));
        if range_is(chars, k.0, k.1, "57") && lists_signature(chars, v.0, v.1) {
            assert(names_signature(props[i as int]));
            return true;
        }
        i += 1;
    }
    false
}

/// Empties, in the level string, every object that lists the signature
/// group, which clears what an earlier run appended.
pub fn remove_spwn_objects(file_content: &mut String)
    ensures
        final(file_content)@ == cleansed(old(file_content)@),
{
    let chars = chars_of(file_content.as_str());
    let bounds = split_bounds(&chars, 0, chars.len(), ';');
    assert(chars@.subrange(0, chars.len() as int) =~= chars@);
    let ghost objs = split(chars@, ';');
    let ghost want = cleansed_objects(objs);
    let mut out = String::new();
    let mut i: usize = 0;
    assert(want.take(0) =~= Seq::empty());
    while i < bounds.len()
        invariant
            i <= bounds.len(),
            objs == split(chars@, ';'),
            want == cleansed_objects(objs),
            bounds@.len() == objs.len(),
            forall|j: int|
                0 <= j < bounds@.len() ==> (#[trigger] bounds@[j]).0 <= bounds@[j].1 <= chars.len()
                    && chars@.subrange(bounds@[j].0 as int, bounds@[j].1 as int) == objs[j],
            out@ == join(want.take(i as int), ';'),
        decreases bounds.len() - i,
    {
        let o = bounds[i];
        assert(want.take(i + 1).drop_last() =~= want.take(i as int));
        assert(want.take(i + 1).last() == want[i as int]);
        let ghost before = out@;
        if i > 0 {
            out.push(';');
        }
        if !spwn_object(&chars, o.0, o.1) {
            crate::text::push_chars(&mut out, &chars, o.0, o.1);
        }
        assert(out@ =~= join(want.take(i + 1), ';'));
        i += 1;
    }
    assert(want.take(bounds.len() as int) =~= want);
    *file_content = out;
}

} // verus!
