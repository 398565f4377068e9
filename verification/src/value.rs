//! Values of the language: what a slot of the arena holds.

use vstd::prelude::*;
use crate::ids::Id;
use crate::objects::{GdObj, GdObjView};
use crate::sources::CodeArea;

verus! {

/// The key of a slot of the value arena.
pub type ValueKey = slotmap::DefaultKey;

/// `slotmap::DefaultKey`: carried through and compared, never looked into.
#[verifier::external_type_specification]
#[verifier::external_body]
pub struct ExDefaultKey(slotmap::DefaultKey);

/// `slotmap::DefaultKey`'s `==`: two keys are equal when they name the same
/// slot in the same version, which is all that a key holds.
#[verifier::external_body]
pub(crate) fn same_key(a: ValueKey, b: ValueKey) -> (r: bool)
    ensures
        r == (a == b),
{
    a == b
}

/// The tag of a value.
#[derive(Clone, Copy, Debug, PartialEq, Eq, Structural)]
pub enum ValueType {
    Int,
    Float,
    String,
    Bool,
    Empty,
    Array,
    Dict,
    Maybe,
    TypeIndicator,
    Pattern,
    Group,
    Color,
    Block,
    Item,
    TriggerFunc,
    Macro,
    Object,
}

impl ValueType {
    /// The name of a tag, without the `@` in front.
    pub open spec fn name(self) -> Seq<char> {
        match self {
            ValueType::Int => "int"@,
            ValueType::Float => "float"@,
            ValueType::String => "string"@,
            ValueType::Bool => "bool"@,
            ValueType::Empty => "empty"@,
            ValueType::Array => "array"@,
            ValueType::Dict => "dictionary"@,
            ValueType::Maybe => "maybe"@,
            ValueType::TypeIndicator => "type_indicator"@,
            ValueType::Pattern => "pattern"@,
            ValueType::Group => "group"@,
            ValueType::Color => "color"@,
            ValueType::Block => "block"@,
            ValueType::Item => "item"@,
            ValueType::TriggerFunc => "trigger_function"@,
            ValueType::Macro => "macro"@,
            ValueType::Object => "object"@,
        }
    }

    /// The text of a tag: `@` and its name.
    pub open spec fn text(self) -> Seq<char> {
        seq!['@'] + self.name()
    }

    fn name_str(&self) -> (r: &'static str)
        ensures
            r@ == self.name(),
    {
        match self {
            ValueType::Int => "int",
            ValueType::Float => "float",
            ValueType::String => "string",
            ValueType::Bool => "bool",
            ValueType::Empty => "empty",
            ValueType::Array => "array",
            ValueType::Dict => "dictionary",
            ValueType::Maybe => "maybe",
            ValueType::TypeIndicator => "type_indicator",
            ValueType::Pattern => "pattern",
            ValueType::Group => "group",
            ValueType::Color => "color",
            ValueType::Block => "block",
            ValueType::Item => "item",
            ValueType::TriggerFunc => "trigger_function",
            ValueType::Macro => "macro",
            ValueType::Object => "object",
        }
    }

    /// The tag as text: `@` and its name.
    pub fn to_str(&self) -> (r: String)
        ensures
            r@ == self.text(),
    {
        let mut s = String::new();
        s.push('@');
        s.append(self.name_str());
        assert(s@ =~= self.text());
        s
    }
}

/// A pattern that values are matched against.
#[derive(Debug)]
pub enum Pattern {
    Any,
    Type(ValueType),
    Macro { args: Vec<Pattern>, ret: Box<Pattern> },
}

/// The mathematical value of a [`Pattern`].
pub enum PatternView {
    Any,
    Type(ValueType),
    Macro { args: Seq<PatternView>, ret: Box<PatternView> },
}

/// The texts put together, `", "` between each two.
pub open spec fn comma_joined(parts: Seq<Seq<char>>) -> Seq<char>
    decreases parts.len(),
{
    if parts.len() == 0 {
        Seq::<char>::empty()
    } else if parts.len() == 1 {
        parts[0]
    } else {
        comma_joined(parts.drop_last()) + seq![',', ' '] + parts.last()
    }
}

/// The texts of a list of patterns.
pub open spec fn pattern_texts(args: Seq<PatternView>) -> Seq<Seq<char>>
    decreases args,
{
    Seq::new(
        args.len(),
        |i: int|
            if 0 <= i < args.len() {
                args[i].text()
            } else {
                Seq::<char>::empty()
            },
    )
}

impl PatternView {
    /// The text of a pattern: `_`, a tag, or `(args) -> ret`.
    pub open spec fn text(self) -> Seq<char>
        decreases self,
    {
        match self {
            PatternView::Any => seq!['_'],
            PatternView::Type(t) => t.text(),
            PatternView::Macro { args, ret } => seq!['('] + comma_joined(pattern_texts(args))
                + seq![')', ' ', '-', '>', ' '] + ret.text(),
        }
    }
}

impl Pattern {
    /// The mathematical value of the pattern.
    pub open spec fn model(&self) -> PatternView
        decreases self,
    {
        match self {
            Pattern::Any => PatternView::Any,
            Pattern::Type(t) => PatternView::Type(*t),
            Pattern::Macro { args, ret } => PatternView::Macro {
                args: Seq::new(
                    args@.len(),
                    |i: int|
                        if 0 <= i < args@.len() {
                            args@[i].model()
                        } else {
                            PatternView::Any
                        },
                ),
                ret: Box::new(ret.model()),
            },
        }
    }
}

impl View for Pattern {
    type V = PatternView;

    open spec fn view(&self) -> PatternView {
        self.model()
    }
}

impl Pattern {
    /// A copy with the same value.
    #[verifier::loop_isolation(false)]
    pub fn copy(&self) -> (r: Pattern)
        ensures
            r@ == self@,
        decreases self,
    {
        match self {
            Pattern::Any => Pattern::Any,
            Pattern::Type(t) => Pattern::Type(*t),
            Pattern::Macro { args, ret } => {
                let mut out: Vec<Pattern> = Vec::new();
                let mut i: usize = 0;
                while i < args.len()
                    invariant
                        i <= args.len(),
                        out@.len() == i,
                        forall|j: int| 0 <= j < i ==> out@[j]@ == args@[j]@,
                    decreases args.len() - i,
                {
                    proof {
                        vstd::std_specs::vec::axiom_vec_index_decreases(*args, i as int);
                    }
                    out.push(args[i].copy());
                    i += 1;
                }
                let r = Pattern::Macro { args: out, ret: Box::new(ret.copy()) };
                assert(r@->Macro_args =~= self@->Macro_args);
                r
            },
        }
    }

    /// Whether two patterns have the same value.
    #[verifier::loop_isolation(false)]
    pub fn same(&self, other: &Pattern) -> (r: bool)
        ensures
            r == (self@ == other@),
        decreases self,
    {
        match (self, other) {
            (Pattern::Any, Pattern::Any) => true,
            (Pattern::Type(a), Pattern::Type(b)) => *a == *b,
            (Pattern::Macro { args: a, ret: ra }, Pattern::Macro { args: b, ret: rb }) => {
                if a.len() != b.len() {
                    assert(self@->Macro_args.len() != other@->Macro_args.len());
                    return false;
                }
                let mut i: usize = 0;
                while i < a.len()
                    invariant
                        i <= a.len(),
                        a.len() == b.len(),
                        forall|j: int| 0 <= j < i ==> a@[j]@ == b@[j]@,
                    decreases a.len() - i,
                {
                    proof {
                        vstd::std_specs::vec::axiom_vec_index_decreases(*a, i as int);
                    }
                    if !a[i].same(&b[i]) {
                        assert(self@->Macro_args[i as int] != other@->Macro_args[i as int]);
                        return false;
                    }
                    i += 1;
                }
                assert(self@->Macro_args =~= other@->Macro_args);
                ra.same(rb)
            },
            _ => false,
        }
    }

    /// Appends the text of the pattern to `s`.
    #[verifier::loop_isolation(false)]
    pub fn push_text(&self, s: &mut String)
        ensures
            final(s)@ == old(s)@ + self@.text(),
        decreases self,
    {
        match self {
            Pattern::Any => {
                s.push('_');
                assert(s@ =~= old(s)@ + self@.text());
            },
            Pattern::Type(t) => {
                let n = t.to_str();
                s.append(n.as_str());
            },
            Pattern::Macro { args, ret } => {
                s.push('(');
                let ghost texts = pattern_texts(self@->Macro_args);
                let mut i: usize = 0;
                assert(texts.take(0) =~= Seq::empty());
                while i < args.len()
                    invariant
                        i <= args.len(),
                        s@ == old(s)@ + seq!['('] + comma_joined(texts.take(i as int)),
                    decreases args.len() - i,
                {
                    proof {
                        vstd::std_specs::vec::axiom_vec_index_decreases(*args, i as int);
                    }
                    let ghost before = s@;
                    if i > 0 {
                        s.push(',');
                        s.push(' ');
                    }
                    args[i].push_text(s);
                    assert(texts.take(i + 1).drop_last() =~= texts.take(i as int));
                    assert(texts.take(i + 1).last() == args@[i as int]@.text());
                    assert(s@ =~= old(s)@ + seq!['('] + comma_joined(texts.take(i + 1)));
                    i += 1;
                }
                assert(texts.take(args.len() as int) =~= texts);
                s.push(')');
                s.push(' ');
                s.push('-');
                s.push('>');
                s.push(' ');
                ret.push_text(s);
                assert(s@ =~= old(s)@ + self@.text());
            },
        }
    }

    /// The pattern as text: `_`, a tag, or `(args) -> ret`.
    pub fn to_str(&self) -> (r: String)
        ensures
            r@ == self@.text(),
    {
        let mut s = String::new();
        self.push_text(&mut s);
        assert(s@ =~= self@.text());
        s
    }
}

/// One parameter of a macro.
#[derive(Debug)]
pub struct MacroArg {
    pub name: String,
    pub area: CodeArea,
    pub pattern: Option<(Pattern, CodeArea)>,
    pub default: Option<ValueKey>,
}

/// The mathematical value of a [`MacroArg`].
pub struct MacroArgView {
    pub name: Seq<char>,
    pub area: CodeArea,
    pub pattern: Option<(PatternView, CodeArea)>,
    pub default: Option<ValueKey>,
}

impl View for MacroArg {
    type V = MacroArgView;

    open spec fn view(&self) -> MacroArgView {
        MacroArgView {
            name: self.name@,
            area: self.area,
            pattern: match self.pattern {
                Some(p) => Some((p.0@, p.1)),
                None => None,
            },
            default: self.default,
        }
    }
}

impl MacroArgView {
    /// The pattern that an argument must match: the declared one, or `Any`.
    pub open spec fn pattern_or_any(self) -> PatternView {
        match self.pattern {
            Some(p) => p.0,
            None => PatternView::Any,
        }
    }
}

impl MacroArg {
    /// The pattern that an argument must match: the declared one, or `Any`.
    pub fn get_pattern(&self) -> (r: Pattern)
        ensures
            r@ == self@.pattern_or_any(),
    {
        match &self.pattern {
            Some(p) => p.0.copy(),
            None => Pattern::Any,
        }
    }

    /// A copy with the same value.
    pub fn copy(&self) -> (r: MacroArg)
        ensures
            r@ == self@,
    {
        MacroArg {
            name: self.name.clone(),
            area: self.area,
            pattern: match &self.pattern {
                Some(p) => Some((p.0.copy(), p.1)),
                None => None,
            },
            default: self.default,
        }
    }

    /// Whether two parameters have the same value.
    pub fn same(&self, other: &MacroArg) -> (r: bool)
        ensures
            r == (self@ == other@),
    {
        if !(self.name == other.name) || !(self.area == other.area) {
            return false;
        }
        let pat = match (&self.pattern, &other.pattern) {
            (Some(p), Some(q)) => p.0.same(&q.0) && p.1 == q.1,
            (None, None) => true,
            _ => false,
        };
        if !pat {
            return false;
        }
        match (self.default, other.default) {
            (Some(a), Some(b)) => same_key(a, b),
            (None, None) => true,
            _ => false,
        }
    }
}

/// A copy of a list of keys.
pub fn copy_keys(l: &Vec<ValueKey>) -> (r: Vec<ValueKey>)
    ensures
        r@ == l@,
{
    let mut r: Vec<ValueKey> = Vec::new();
    let mut i: usize = 0;
    while i < l.len()
        invariant
            i <= l.len(),
            r@ == l@.subrange(0, i as int),
        decreases l.len() - i,
    {
        r.push(l[i]);
        i += 1;
        assert(r@ =~= l@.subrange(0, i as int));
    }
    assert(r@ =~= l@);
    r
}

/// Whether two lists of keys are the same.
pub fn same_keys(a: &Vec<ValueKey>, b: &Vec<ValueKey>) -> (r: bool)
    ensures
        r == (a@ == b@),
{
    if a.len() != b.len() {
        return false;
    }
    let mut i: usize = 0;
    while i < a.len()
        invariant
            i <= a.len(),
            a.len() == b.len(),
            forall|j: int| 0 <= j < i ==> a@[j] == b@[j],
        decreases a.len() - i,
    {
        if !same_key(a[i], b[i]) {
            return false;
        }
        i += 1;
    }
    assert(a@ =~= b@);
    true
}

/// A callable value: which function it runs, its parameters, the slots it
/// captured and the pattern of what it returns.
#[derive(Debug)]
pub struct Macro {
    pub func_id: usize,
    pub args: Vec<MacroArg>,
    pub capture: Vec<ValueKey>,
    pub ret_type: (Pattern, CodeArea),
}

/// The mathematical value of a [`Macro`].
pub struct MacroView {
    pub func_id: usize,
    pub args: Seq<MacroArgView>,
    pub capture: Seq<ValueKey>,
    pub ret_type: (PatternView, CodeArea),
}

impl View for Macro {
    type V = MacroView;

    open spec fn view(&self) -> MacroView {
        MacroView {
            func_id: self.func_id,
            args: self.args@.map_values(|a: MacroArg| a@),
            capture: self.capture@,
            ret_type: (self.ret_type.0@, self.ret_type.1),
        }
    }
}

impl Macro {
    /// A copy with the same value.
    pub fn copy(&self) -> (r: Macro)
        ensures
            r@ == self@,
    {
        let mut args: Vec<MacroArg> = Vec::new();
        let mut i: usize = 0;
        while i < self.args.len()
            invariant
                i <= self.args.len(),
                args@.len() == i,
                forall|j: int| 0 <= j < i ==> args@[j]@ == self.args@[j]@,
            decreases self.args.len() - i,
        {
            args.push(self.args[i].copy());
            i += 1;
        }
        let r = Macro {
            func_id: self.func_id,
            args,
            capture: copy_keys(&self.capture),
            ret_type: (self.ret_type.0.copy(), self.ret_type.1),
        };
        assert(r@.args =~= self@.args);
        r
    }

    /// Whether two macros have the same value.
    pub fn same(&self, other: &Macro) -> (r: bool)
        ensures
            r == (self@ == other@),
    {
        if self.func_id != other.func_id || self.args.len() != other.args.len() {
            assert(self.args.len() != other.args.len() ==> self@.args.len() != other@.args.len());
            return false;
        }
        let mut i: usize = 0;
        while i < self.args.len()
            invariant
                i <= self.args.len(),
                self.args.len() == other.args.len(),
                forall|j: int| 0 <= j < i ==> self.args@[j]@ == other.args@[j]@,
            decreases self.args.len() - i,
        {
            if !self.args[i].same(&other.args[i]) {
                assert(self@.args[i as int] != other@.args[i as int]);
                return false;
            }
            i += 1;
        }
        assert(self@.args =~= other@.args);
        same_keys(&self.capture, &other.capture) && self.ret_type.0.same(&other.ret_type.0)
            && self.ret_type.1 == other.ret_type.1
    }
}

/// A value. A float is held as its binary64 bit pattern; an array, a
/// dictionary, a maybe and a macro refer to other values by their keys.
#[derive(Debug)]
pub enum Value {
    Int(i64),
    Float(u64),
    String(String),
    Bool(bool),
    Empty,
    Array(Vec<ValueKey>),
    Dict(Vec<(String, ValueKey)>),
    Maybe(Option<ValueKey>),
    TypeIndicator(ValueType),
    Pattern(Pattern),
    Group(Id),
    Color(Id),
    Block(Id),
    Item(Id),
    TriggerFunc { start_group: Id },
    Macro(Macro),
    Object(GdObj),
}

/// The mathematical value of a [`Value`].
pub enum ValueView {
    Int(i64),
    Float(u64),
    String(Seq<char>),
    Bool(bool),
    Empty,
    Array(Seq<ValueKey>),
    Dict(Seq<(Seq<char>, ValueKey)>),
    Maybe(Option<ValueKey>),
    TypeIndicator(ValueType),
    Pattern(PatternView),
    Group(Id),
    Color(Id),
    Block(Id),
    Item(Id),
    TriggerFunc { start_group: Id },
    Macro(MacroView),
    Object(GdObjView),
}

impl View for Value {
    type V = ValueView;

    open spec fn view(&self) -> ValueView {
        match self {
            Value::Int(n) => ValueView::Int(*n),
            Value::Float(x) => ValueView::Float(*x),
            Value::String(s) => ValueView::String(s@),
            Value::Bool(b) => ValueView::Bool(*b),
            Value::Empty => ValueView::Empty,
            Value::Array(a) => ValueView::Array(a@),
            Value::Dict(d) => ValueView::Dict(d@.map_values(|p: (String, ValueKey)| (p.0@, p.1))),
            Value::Maybe(m) => ValueView::Maybe(*m),
            Value::TypeIndicator(t) => ValueView::TypeIndicator(*t),
            Value::Pattern(p) => ValueView::Pattern(p@),
            Value::Group(g) => ValueView::Group(*g),
            Value::Color(g) => ValueView::Color(*g),
            Value::Block(g) => ValueView::Block(*g),
            Value::Item(g) => ValueView::Item(*g),
            Value::TriggerFunc { start_group } => ValueView::TriggerFunc {
                start_group: *start_group,
            },
            Value::Macro(m) => ValueView::Macro(m@),
            Value::Object(o) => ValueView::Object(o@),
        }
    }
}

impl ValueView {
    /// The tag of the value.
    pub open spec fn type_of(self) -> ValueType {
        match self {
            ValueView::Int(_) => ValueType::Int,
            ValueView::Float(_) => ValueType::Float,
            ValueView::String(_) => ValueType::String,
            ValueView::Bool(_) => ValueType::Bool,
            ValueView::Empty => ValueType::Empty,
            ValueView::Array(_) => ValueType::Array,
            ValueView::Dict(_) => ValueType::Dict,
            ValueView::Maybe(_) => ValueType::Maybe,
            ValueView::TypeIndicator(_) => ValueType::TypeIndicator,
            ValueView::Pattern(_) => ValueType::Pattern,
            ValueView::Group(_) => ValueType::Group,
            ValueView::Color(_) => ValueType::Color,
            ValueView::Block(_) => ValueType::Block,
            ValueView::Item(_) => ValueType::Item,
            ValueView::TriggerFunc { .. } => ValueType::TriggerFunc,
            ValueView::Macro(_) => ValueType::Macro,
            ValueView::Object(_) => ValueType::Object,
        }
    }

    /// The keys of the values that this one is made of, in order: the
    /// elements of an array, the fields of a dictionary, what a maybe holds,
    /// the defaults of a macro's parameters. A copy of the value owns copies
    /// of them.
    pub open spec fn parts(self) -> Seq<ValueKey> {
        match self {
            ValueView::Array(a) => a,
            ValueView::Dict(d) => d.map_values(|p: (Seq<char>, ValueKey)| p.1),
            ValueView::Maybe(Some(k)) => seq![k],
            ValueView::Macro(m) => defaults_of(m.args),
            _ => Seq::<ValueKey>::empty(),
        }
    }

    /// The keys that a macro captured. A copy of the macro shares them.
    pub open spec fn captured(self) -> Seq<ValueKey> {
        match self {
            ValueView::Macro(m) => m.capture,
            _ => Seq::<ValueKey>::empty(),
        }
    }

    /// The value with its parts replaced, in order, by `ps`.
    pub open spec fn rekeyed(self, ps: Seq<ValueKey>) -> ValueView {
        match self {
            ValueView::Array(_) => ValueView::Array(ps),
            ValueView::Dict(d) => ValueView::Dict(Seq::new(d.len(), |i: int| (d[i].0, ps[i]))),
            ValueView::Maybe(Some(_)) => ValueView::Maybe(Some(ps[0])),
            ValueView::Macro(m) => ValueView::Macro(
                MacroView {
                    func_id: m.func_id,
                    args: rekeyed_args(m.args, ps),
                    capture: m.capture,
                    ret_type: m.ret_type,
                },
            ),
            _ => self,
        }
    }

    /// Whether the value is sound in itself: no field name of a dictionary
    /// occurs twice, and the parameters of an object are sorted by key with
    /// no key twice.
    pub open spec fn sound(self) -> bool {
        match self {
            ValueView::Dict(d) => forall|i: int, j: int|
                0 <= i < j < d.len() ==> d[i].0 != d[j].0,
            ValueView::Object(o) => crate::objects::keys_rise(o.params),
            _ => true,
        }
    }
}

/// The default keys of a list of parameters, in order, those without a
/// default left out.
pub open spec fn defaults_of(args: Seq<MacroArgView>) -> Seq<ValueKey>
    decreases args.len(),
{
    if args.len() == 0 {
        Seq::<ValueKey>::empty()
    } else {
        match args.last().default {
            Some(k) => defaults_of(args.drop_last()).push(k),
            None => defaults_of(args.drop_last()),
        }
    }
}

/// The defaults of the first `i` parameters are no more than those of all.
pub proof fn lemma_defaults_prefix(args: Seq<MacroArgView>, i: int)
    requires
        0 <= i <= args.len(),
    ensures
        defaults_of(args.take(i)).len() <= defaults_of(args).len(),
    decreases args.len() - i,
{
    if i == args.len() {
        assert(args.take(i) =~= args);
    } else {
        lemma_defaults_prefix(args, i + 1);
        assert(args.take(i + 1).drop_last() =~= args.take(i));
    }
}

/// The parameters with their defaults replaced, in order, by `ps`.
pub open spec fn rekeyed_args(args: Seq<MacroArgView>, ps: Seq<ValueKey>) -> Seq<MacroArgView>
    decreases args.len(),
{
    if args.len() == 0 {
        args
    } else {
        let last = args.last();
        match last.default {
            Some(_) => rekeyed_args(args.drop_last(), ps.drop_last()).push(
                MacroArgView {
                    name: last.name,
                    area: last.area,
                    pattern: last.pattern,
                    default: Some(ps.last()),
                },
            ),
            None => rekeyed_args(args.drop_last(), ps).push(last),
        }
    }
}

/// Replacing the defaults by as many keys gives parameters with exactly
/// those defaults.
pub proof fn lemma_rekeyed_args(args: Seq<MacroArgView>, ps: Seq<ValueKey>)
    requires
        ps.len() == defaults_of(args).len(),
    ensures
        rekeyed_args(args, ps).len() == args.len(),
        defaults_of(rekeyed_args(args, ps)) == ps,
    decreases args.len(),
{
    if args.len() > 0 {
        let last = args.last();
        match last.default {
            Some(_) => {
                lemma_rekeyed_args(args.drop_last(), ps.drop_last());
                let out = rekeyed_args(args, ps);
                assert(out.drop_last() =~= rekeyed_args(args.drop_last(), ps.drop_last()));
                assert(defaults_of(out) =~= ps);
            },
            None => {
                lemma_rekeyed_args(args.drop_last(), ps);
                let out = rekeyed_args(args, ps);
                assert(out.drop_last() =~= rekeyed_args(args.drop_last(), ps));
            },
        }
    } else {
        assert(ps =~= Seq::empty());
    }
}

/// Replacing the parts of a value by as many keys gives a value with exactly
/// those parts, the same captured keys and the same field names.
pub proof fn lemma_rekeyed(v: ValueView, ps: Seq<ValueKey>)
    requires
        ps.len() == v.parts().len(),
    ensures
        v.rekeyed(ps).parts() == ps,
        v.rekeyed(ps).captured() == v.captured(),
        v.rekeyed(ps).type_of() == v.type_of(),
        v.sound() ==> v.rekeyed(ps).sound(),
        v.rekeyed(v.parts()) == v,
{
    match v {
        ValueView::Array(a) => {},
        ValueView::Dict(d) => {
            assert(v.rekeyed(ps).parts() =~= ps);
            assert(v.rekeyed(v.parts())->Dict_0 =~= d);
        },
        ValueView::Maybe(Some(k)) => {
            assert(v.rekeyed(ps).parts() =~= ps);
        },
        ValueView::Macro(m) => {
            lemma_rekeyed_args(m.args, ps);
            lemma_rekeyed_args_same(m.args);
        },
        _ => {
            assert(ps =~= Seq::empty());
        },
    }
}

/// Replacing the defaults twice is replacing them by the second keys.
pub proof fn lemma_rekeyed_args_twice(args: Seq<MacroArgView>, ps: Seq<ValueKey>, qs: Seq<ValueKey>)
    requires
        ps.len() == defaults_of(args).len(),
        qs.len() == ps.len(),
    ensures
        rekeyed_args(rekeyed_args(args, ps), qs) == rekeyed_args(args, qs),
    decreases args.len(),
{
    if args.len() > 0 {
        let last = args.last();
        match last.default {
            Some(_) => {
                lemma_rekeyed_args_twice(args.drop_last(), ps.drop_last(), qs.drop_last());
                let mid = rekeyed_args(args, ps);
                assert(mid.drop_last() =~= rekeyed_args(args.drop_last(), ps.drop_last()));
            },
            None => {
                lemma_rekeyed_args_twice(args.drop_last(), ps, qs);
                let mid = rekeyed_args(args, ps);
                assert(mid.drop_last() =~= rekeyed_args(args.drop_last(), ps));
            },
        }
    }
}

/// Replacing the defaults by themselves changes nothing.
pub proof fn lemma_rekeyed_args_same(args: Seq<MacroArgView>)
    ensures
        rekeyed_args(args, defaults_of(args)) == args,
    decreases args.len(),
{
    if args.len() > 0 {
        let last = args.last();
        lemma_rekeyed_args_same(args.drop_last());
        match last.default {
            Some(k) => {
                assert(defaults_of(args).drop_last() =~= defaults_of(args.drop_last()));
                assert(rekeyed_args(args, defaults_of(args)) =~= args);
            },
            None => {
                assert(rekeyed_args(args, defaults_of(args)) =~= args);
            },
        }
    }
}

/// A copy of the fields of a dictionary.
pub fn copy_fields(d: &Vec<(String, ValueKey)>) -> (r: Vec<(String, ValueKey)>)
    ensures
        r@.len() == d@.len(),
        forall|j: int| 0 <= j < d@.len() ==> r@[j].0@ == d@[j].0@ && r@[j].1 == d@[j].1,
{
    let mut r: Vec<(String, ValueKey)> = Vec::new();
    let mut i: usize = 0;
    while i < d.len()
        invariant
            i <= d.len(),
            r@.len() == i,
            forall|j: int| 0 <= j < i ==> r@[j].0@ == d@[j].0@ && r@[j].1 == d@[j].1,
        decreases d.len() - i,
    {
        r.push((d[i].0.clone(), d[i].1));
        i += 1;
    }
    r
}

impl Value {
    /// The tag of the value.
    pub fn get_type(&self) -> (r: ValueType)
        ensures
            r == self@.type_of(),
    {
        match self {
            Value::Int(_) => ValueType::Int,
            Value::Float(_) => ValueType::Float,
            Value::String(_) => ValueType::String,
            Value::Bool(_) => ValueType::Bool,
            Value::Empty => ValueType::Empty,
            Value::Array(_) => ValueType::Array,
            Value::Dict(_) => ValueType::Dict,
            Value::Maybe(_) => ValueType::Maybe,
            Value::TypeIndicator(_) => ValueType::TypeIndicator,
            Value::Pattern(_) => ValueType::Pattern,
            Value::Group(_) => ValueType::Group,
            Value::Color(_) => ValueType::Color,
            Value::Block(_) => ValueType::Block,
            Value::Item(_) => ValueType::Item,
            Value::TriggerFunc { .. } => ValueType::TriggerFunc,
            Value::Macro(_) => ValueType::Macro,
            Value::Object(_) => ValueType::Object,
        }
    }

    /// The value with the place where it was defined.
    pub fn into_stored(self, area: CodeArea) -> (r: StoredValue)
        ensures
            r == (StoredValue { value: self, def_area: area }),
    {
        StoredValue { value: self, def_area: area }
    }

    /// The keys of the parts of the value, in order.
    pub fn part_keys(&self) -> (r: Vec<ValueKey>)
        ensures
            r@ == self@.parts(),
    {
        match self {
            Value::Array(a) => copy_keys(a),
            Value::Dict(d) => {
                let mut r: Vec<ValueKey> = Vec::new();
                let mut i: usize = 0;
                while i < d.len()
                    invariant
                        i <= d.len(),
                        r@.len() == i,
                        forall|j: int| 0 <= j < i ==> r@[j] == d@[j].1,
                    decreases d.len() - i,
                {
                    r.push(d[i].1);
                    i += 1;
                }
                assert(r@ =~= self@.parts());
                r
            },
            Value::Maybe(Some(k)) => {
                let mut r: Vec<ValueKey> = Vec::new();
                r.push(*k);
                assert(r@ =~= self@.parts());
                r
            },
            Value::Macro(m) => {
                let mut r: Vec<ValueKey> = Vec::new();
                let mut i: usize = 0;
                assert(m@.args.take(0) =~= Seq::empty());
                while i < m.args.len()
                    invariant
                        i <= m.args.len(),
                        r@ == defaults_of(m@.args.take(i as int)),
                    decreases m.args.len() - i,
                {
                    assert(m@.args.take(i + 1).drop_last() =~= m@.args.take(i as int));
                    assert(m@.args.take(i + 1).last() == m.args@[i as int]@);
                    match m.args[i].default {
                        Some(k) => {
                            r.push(k);
                        },
                        None => {},
                    }
                    i += 1;
                }
                assert(m@.args.take(m.args.len() as int) =~= m@.args);
                r
            },
            _ => {
                let r: Vec<ValueKey> = Vec::new();
                assert(r@ =~= self@.parts());
                r
            },
        }
    }

    /// A copy of the value with its parts replaced, in order, by `ps`.
    pub fn with_parts(&self, ps: &Vec<ValueKey>) -> (r: Value)
        requires
            ps@.len() == self@.parts().len(),
        ensures
            r@ == self@.rekeyed(ps@),
    {
        match self {
            Value::Array(_) => Value::Array(copy_keys(ps)),
            Value::Dict(d) => {
                let mut out: Vec<(String, ValueKey)> = Vec::new();
                let mut i: usize = 0;
                while i < d.len()
                    invariant
                        i <= d.len(),
                        d.len() == ps.len(),
                        out@.len() == i,
                        forall|j: int|
                            0 <= j < i ==> (#[trigger] out@[j]).0@ == d@[j].0@ && out@[j].1
                                == ps@[j],
                    decreases d.len() - i,
                {
                    let name = d[i].0.clone();
                    let key = ps[i];
                    out.push((name, key));
                    i += 1;
                }
                let r = Value::Dict(out);
                assert(r@->Dict_0 =~= self@.rekeyed(ps@)->Dict_0);
                r
            },
            Value::Maybe(Some(_)) => Value::Maybe(Some(ps[0])),
            Value::Macro(m) => {
                let mut args: Vec<MacroArg> = Vec::new();
                let mut i: usize = 0;
                let mut used: usize = 0;
                assert(m@.args.take(0) =~= Seq::empty());
                assert(ps@.take(0) =~= Seq::empty());
                while i < m.args.len()
                    invariant
                        i <= m.args.len(),
                        used <= ps.len(),
                        ps@.len() == defaults_of(m@.args).len(),
                        used == defaults_of(m@.args.take(i as int)).len(),
                        args@.map_values(|a: MacroArg| a@) == rekeyed_args(
                            m@.args.take(i as int),
                            ps@.take(used as int),
                        ),
                    decreases m.args.len() - i,
                {
                    let ghost done = args@.map_values(|a: MacroArg| a@);
                    assert(m@.args.take(i + 1).drop_last() =~= m@.args.take(i as int));
                    assert(m@.args.take(i + 1).last() == m.args@[i as int]@);
                    proof {
                        lemma_defaults_prefix(m@.args, i + 1);
                    }
                    let a = &m.args[i];
                    match a.default {
                        Some(_) => {
                            assert(ps@.take(used + 1).drop_last() =~= ps@.take(used as int));
                            args.push(
                                MacroArg {
                                    name: a.name.clone(),
                                    area: a.area,
                                    pattern: match &a.pattern {
                                        Some(p) => Some((p.0.copy(), p.1)),
                                        None => None,
                                    },
                                    default: Some(ps[used]),
                                },
                            );
                            used += 1;
                        },
                        None => {
                            args.push(a.copy());
                        },
                    }
                    assert(args@.map_values(|a: MacroArg| a@) =~= done.push(args@.last()@));
                    i += 1;
                }
                assert(m@.args.take(m.args.len() as int) =~= m@.args);
                assert(ps@.take(used as int) =~= ps@);
                Value::Macro(
                    Macro {
                        func_id: m.func_id,
                        args,
                        capture: copy_keys(&m.capture),
                        ret_type: (m.ret_type.0.copy(), m.ret_type.1),
                    },
                )
            },
            _ => self.copy(),
        }
    }

    /// Whether two values are the same, keys included.
    pub fn same(&self, other: &Value) -> (r: bool)
        ensures
            r == (self@ == other@),
    {
        match (self, other) {
            (Value::Int(a), Value::Int(b)) => *a == *b,
            (Value::Float(a), Value::Float(b)) => *a == *b,
            (Value::String(a), Value::String(b)) => *a == *b,
            (Value::Bool(a), Value::Bool(b)) => *a == *b,
            (Value::Empty, Value::Empty) => true,
            (Value::Array(a), Value::Array(b)) => same_keys(a, b),
            (Value::Dict(a), Value::Dict(b)) => {
                if a.len() != b.len() {
                    assert(self@->Dict_0.len() != other@->Dict_0.len());
                    return false;
                }
                let mut i: usize = 0;
                while i < a.len()
                    invariant
                        i <= a.len(),
                        a.len() == b.len(),
                        self@ is Dict,
                        other@ is Dict,
                        self@->Dict_0 == a@.map_values(|p: (String, ValueKey)| (p.0@, p.1)),
                        other@->Dict_0 == b@.map_values(|p: (String, ValueKey)| (p.0@, p.1)),
                        forall|j: int| 0 <= j < i ==> self@->Dict_0[j] == other@->Dict_0[j],
                    decreases a.len() - i,
                {
                    if !(a[i].0 == b[i].0) || !same_key(a[i].1, b[i].1) {
                        assert(self@->Dict_0[i as int] != other@->Dict_0[i as int]);
                        return false;
                    }
                    i += 1;
                }
                assert(self@->Dict_0 =~= other@->Dict_0);
                true
            },
            (Value::Maybe(a), Value::Maybe(b)) => match (a, b) {
                (Some(x), Some(y)) => same_key(*x, *y),
                (None, None) => true,
                _ => false,
            },
            (Value::TypeIndicator(a), Value::TypeIndicator(b)) => *a == *b,
            (Value::Pattern(a), Value::Pattern(b)) => a.same(b),
            (Value::Group(a), Value::Group(b)) => *a == *b,
            (Value::Color(a), Value::Color(b)) => *a == *b,
            (Value::Block(a), Value::Block(b)) => *a == *b,
            (Value::Item(a), Value::Item(b)) => *a == *b,
            (Value::TriggerFunc { start_group: a }, Value::TriggerFunc { start_group: b }) => *a
                == *b,
            (Value::Macro(a), Value::Macro(b)) => a.same(b),
            (Value::Object(a), Value::Object(b)) => a.same(b),
            _ => false,
        }
    }

    /// A copy with the same value. It refers to the same keys.
    pub fn copy(&self) -> (r: Value)
        ensures
            r@ == self@,
    {
        match self {
            Value::Int(n) => Value::Int(*n),
            Value::Float(x) => Value::Float(*x),
            Value::String(s) => Value::String(s.clone()),
            Value::Bool(b) => Value::Bool(*b),
            Value::Empty => Value::Empty,
            Value::Array(a) => Value::Array(copy_keys(a)),
            Value::Dict(d) => {
                let r = Value::Dict(copy_fields(d));
                assert(r@->Dict_0 =~= self@->Dict_0);
                r
            },
            Value::Maybe(m) => Value::Maybe(*m),
            Value::TypeIndicator(t) => Value::TypeIndicator(*t),
            Value::Pattern(p) => Value::Pattern(p.copy()),
            Value::Group(g) => Value::Group(*g),
            Value::Color(g) => Value::Color(*g),
            Value::Block(g) => Value::Block(*g),
            Value::Item(g) => Value::Item(*g),
            Value::TriggerFunc { start_group } => Value::TriggerFunc { start_group: *start_group },
            Value::Macro(m) => Value::Macro(m.copy()),
            Value::Object(o) => Value::Object(o.copy()),
        }
    }
}

/// A value as the arena stores it: with the place where it was defined.
#[derive(Debug)]
pub struct StoredValue {
    pub value: Value,
    pub def_area: CodeArea,
}

/// The mathematical value of a [`StoredValue`].
pub struct StoredValueView {
    pub value: ValueView,
    pub def_area: CodeArea,
}

impl View for StoredValue {
    type V = StoredValueView;

    open spec fn view(&self) -> StoredValueView {
        StoredValueView { value: self.value@, def_area: self.def_area }
    }
}

impl StoredValue {
    /// A copy with the same value. It refers to the same keys.
    pub fn copy(&self) -> (r: StoredValue)
        ensures
            r@ == self@,
    {
        StoredValue { value: self.value.copy(), def_area: self.def_area }
    }
}

} // verus!
