//! The text of a value, as `print` shows it.

use vstd::prelude::*;
use crate::float::{is_negative, whole_magnitude, whole_size, FloatUnit, SIGN_BIT};
use crate::memory::Memory;
use crate::objects::GdObj;
use crate::text::{int_numeral, numeral, push_int_numeral, push_numeral};
use crate::value::{comma_joined, MacroArg, MacroArgView, Value, ValueKey, ValueView};

verus! {

/// The text of one parameter of a macro: its name, then `: ` and its pattern
/// where it has one, then ` = ` and its default where it has one.
pub open spec fn arg_text(a: MacroArgView, part_text: spec_fn(ValueKey) -> Seq<char>) -> Seq<char> {
    a.name + (match a.pattern {
        Some(p) => seq![':', ' '] + p.0.text(),
        None => Seq::<char>::empty(),
    }) + (match a.default {
        Some(k) => seq![' ', '=', ' '] + part_text(k),
        None => Seq::<char>::empty(),
    })
}

/// The text of one field of a dictionary: its name, `: ` and its value.
pub open spec fn field_text(f: (Seq<char>, ValueKey), part_text: spec_fn(ValueKey) -> Seq<char>) -> Seq<
    char,
> {
    f.0 + seq![':', ' '] + part_text(f.1)
}

/// The text of a float that is a whole number of a magnitude below 2^63:
/// its sign, where it is set, and the numeral of its magnitude.
pub open spec fn whole_float_text(x: u64) -> Seq<char> {
    match whole_magnitude(x) {
        Some(m) => if is_negative(x) {
            seq!['-'] + numeral(m as nat)
        } else {
            numeral(m as nat)
        },
        None => Seq::<char>::empty(),
    }
}

/// The text of a value, given the texts of its parts. The text of a float
/// that is no whole number below 2^63 is what the floating-point unit makes
/// of it and the text of an object is its debug form: for both this gives the
/// empty text.
pub open spec fn shape_text(v: ValueView, part_text: spec_fn(ValueKey) -> Seq<char>) -> Seq<char> {
    match v {
        ValueView::Int(n) => int_numeral(n as int),
        ValueView::Float(x) => whole_float_text(x),
        ValueView::String(s) => s,
        ValueView::Bool(b) => if b {
            "true"@
        } else {
            "false"@
        },
        ValueView::Empty => "()"@,
        ValueView::Array(a) => seq!['['] + comma_joined(a.map_values(part_text)) + seq![']'],
        ValueView::Dict(d) => seq!['{'] + comma_joined(
            d.map_values(|f: (Seq<char>, ValueKey)| field_text(f, part_text)),
        ) + seq!['}'],
        ValueView::Maybe(None) => seq!['?'],
        ValueView::Maybe(Some(k)) => part_text(k) + seq!['?'],
        ValueView::TypeIndicator(t) => t.text(),
        ValueView::Pattern(p) => p.text(),
        ValueView::Group(id) => id.text() + seq!['g'],
        ValueView::Color(id) => id.text() + seq!['c'],
        ValueView::Block(id) => id.text() + seq!['b'],
        ValueView::Item(id) => id.text() + seq!['i'],
        ValueView::TriggerFunc { .. } => "!{...}"@,
        ValueView::Macro(m) => seq!['('] + comma_joined(
            m.args.map_values(|a: MacroArgView| arg_text(a, part_text)),
        ) + ") -> "@ + m.ret_type.0.text() + " {...}"@,
        ValueView::Object(_) => Seq::<char>::empty(),
    }
}

/// The text of the value in slot `k`.
pub open spec fn slot_text(m: &Memory, k: ValueKey) -> Seq<char>
    decreases m.rank_of(k), 1nat,
{
    shape_text(m.value(k), below_text(m, k))
}

/// [`slot_text`] for the slots that rank below `k`, as the parts of `k` do.
pub open spec fn below_text(m: &Memory, k: ValueKey) -> spec_fn(ValueKey) -> Seq<char>
    decreases m.rank_of(k), 0nat,
{
    |x: ValueKey|
        if m.rank_of(x) < m.rank_of(k) {
            slot_text(m, x)
        } else {
            Seq::<char>::empty()
        }
}

/// [`slot_text`] as the text of parts.
pub open spec fn text_in(m: &Memory) -> spec_fn(ValueKey) -> Seq<char> {
    |x: ValueKey| slot_text(m, x)
}

/// The text of `v`, a value over `m`.
pub open spec fn value_text(m: &Memory, v: ValueView) -> Seq<char> {
    shape_text(v, text_in(m))
}

/// Whether the text of `v` is fixed here, given the texts of its parts: `v`
/// is no object, and no float but a whole number of a magnitude below 2^63.
pub open spec fn plain_head(v: ValueView) -> bool {
    &&& !(v is Object)
    &&& v matches ValueView::Float(x) ==> whole_magnitude(x) is Some
}

/// Whether the text of slot `k` is fixed here: neither it nor a part of it,
/// at any depth, holds an object or a float that is no whole number below
/// 2^63.
pub open spec fn plain_slot(m: &Memory, k: ValueKey) -> bool
    decreases m.rank_of(k),
    when m.wf() && m.contains(k)
{
    &&& plain_head(m.value(k))
    &&& forall|i: int|
        0 <= i < m.value(k).parts().len() ==> plain_slot(m, #[trigger] m.value(k).parts()[i])
}

/// Whether the text of `v` is fixed here: neither it nor a part of it, at
/// any depth, is an object or a float that is no whole number below 2^63.
pub open spec fn plain(m: &Memory, v: ValueView) -> bool {
    &&& plain_head(v)
    &&& forall|i: int| 0 <= i < v.parts().len() ==> plain_slot(m, #[trigger] v.parts()[i])
}

/// `format!` with `{:?}` on an object: its debug form. Nothing is claimed of
/// the text.
#[verifier::external_body]
fn debug_form(o: &GdObj) -> String {
    format!("{:?}", o)
}

/// [`shape_text`] asks for the texts of the parts of the value only.
pub proof fn lemma_shape_text_agree(
    v: ValueView,
    f: spec_fn(ValueKey) -> Seq<char>,
    g: spec_fn(ValueKey) -> Seq<char>,
)
    requires
        forall|i: int| 0 <= i < v.parts().len() ==> f(#[trigger] v.parts()[i]) == g(v.parts()[i]),
    ensures
        shape_text(v, f) == shape_text(v, g),
{
    match v {
        ValueView::Array(a) => {
            assert forall|i: int| 0 <= i < a.len() implies f(a[i]) == g(a[i]) by {
                assert(v.parts()[i] == a[i]);
            }
            assert(a.map_values(f) =~= a.map_values(g));
        },
        ValueView::Dict(d) => {
            let df = d.map_values(|x: (Seq<char>, ValueKey)| field_text(x, f));
            let dg = d.map_values(|x: (Seq<char>, ValueKey)| field_text(x, g));
            assert forall|i: int| 0 <= i < d.len() implies df[i] == dg[i] by {
                assert(v.parts()[i] == d[i].1);
            }
            assert(df =~= dg);
        },
        ValueView::Maybe(Some(k)) => {
            assert(v.parts()[0] == k);
        },
        ValueView::Macro(m) => {
            let af = m.args.map_values(|a: MacroArgView| arg_text(a, f));
            let ag = m.args.map_values(|a: MacroArgView| arg_text(a, g));
            assert forall|i: int| 0 <= i < m.args.len() implies af[i] == ag[i] by {
                match m.args[i].default {
                    Some(k) => {
                        let j = lemma_default_is_part(m.args, i);
                        assert(v.parts()[j] == k);
                    },
                    None => {},
                }
            }
            assert(af =~= ag);
        },
        _ => {},
    }
}

/// The default of a parameter is among the defaults of the list.
pub proof fn lemma_default_is_part(args: Seq<MacroArgView>, i: int) -> (j: int)
    requires
        0 <= i < args.len(),
        args[i].default is Some,
    ensures
        0 <= j < crate::value::defaults_of(args).len(),
        crate::value::defaults_of(args)[j] == args[i].default->0,
    decreases args.len(),
{
    let rest = args.drop_last();
    if i == args.len() - 1 {
        crate::value::defaults_of(rest).len() as int
    } else {
        let j = lemma_default_is_part(rest, i);
        j
    }
}

/// The guard in [`slot_text`] never bites in a well-formed arena: the text of
/// a slot is the text of its value.
pub proof fn lemma_slot_text_unfold(m: &Memory, k: ValueKey)
    requires
        m.wf(),
        m.contains(k),
    ensures
        slot_text(m, k) == value_text(m, m.value(k)),
        plain_slot(m, k) == plain(m, m.value(k)),
{
    lemma_shape_text_agree(m.value(k), below_text(m, k), text_in(m));
}

fn push_separator(s: &mut String, first: bool)
    ensures
        final(s)@ == old(s)@ + (if first {
            Seq::<char>::empty()
        } else {
            seq![',', ' ']
        }),
{
    if !first {
        s.push(',');
        s.push(' ');
        assert(s@ =~= old(s)@ + seq![',', ' ']);
    } else {
        assert(s@ =~= old(s)@ + Seq::<char>::empty());
    }
}

/// Joining one more text onto a list that was joined.
pub proof fn lemma_comma_joined_push(parts: Seq<Seq<char>>, last: Seq<char>)
    ensures
        comma_joined(parts.push(last)) == comma_joined(parts) + (if parts.len() == 0 {
            Seq::<char>::empty()
        } else {
            seq![',', ' ']
        }) + last,
{
    assert(parts.push(last).drop_last() =~= parts);
    if parts.len() == 0 {
        assert(comma_joined(parts.push(last)) =~= comma_joined(parts) + Seq::<char>::empty()
            + last);
    }
}

/// Appends the text of the value in slot `k` to `s`.
fn push_slot_text<F: FloatUnit>(s: &mut String, k: ValueKey, m: &Memory, fl: &F)
    requires
        m.wf(),
        m.contains(k),
    ensures
        plain_slot(m, k) ==> final(s)@ == old(s)@ + slot_text(m, k),
    decreases m.rank_of(k), 3nat,
{
    proof {
        lemma_slot_text_unfold(m, k);
        assert(m.admits(m.value(k)));
    }
    push_value_text(s, &m.get(k).value, m, fl, Ghost(m.rank_of(k)));
}

/// Appends `[`, the texts of the slots `a` and `]` to `s`.
fn push_array_text<F: FloatUnit>(
    s: &mut String,
    a: &Vec<ValueKey>,
    m: &Memory,
    fl: &F,
    Ghost(bound): Ghost<nat>,
)
    requires
        m.wf(),
        forall|i: int|
            0 <= i < a@.len() ==> m.contains(#[trigger] a@[i]) && m.rank_of(a@[i]) < bound,
    ensures
        (forall|i: int| 0 <= i < a@.len() ==> plain_slot(m, #[trigger] a@[i])) ==> final(s)@ == old(s)@ + seq!['['] + comma_joined(a@.map_values(text_in(m))) + seq![']'],
    decreases bound, 0nat,
{
    s.push('[');
    let ghost texts = a@.map_values(text_in(m));
    let ghost all = forall|i: int| 0 <= i < a@.len() ==> plain_slot(m, #[trigger] a@[i]);
    let mut i: usize = 0;
    assert(texts.take(0) =~= Seq::empty());
    while i < a.len()
        invariant
            i <= a.len(),
            m.wf(),
            forall|i: int|
                0 <= i < a@.len() ==> m.contains(#[trigger] a@[i]) && m.rank_of(a@[i]) < bound,
            texts == a@.map_values(text_in(m)),
            all == (forall|i: int| 0 <= i < a@.len() ==> plain_slot(m, #[trigger] a@[i])),
            all ==> s@ == old(s)@ + seq!['['] + comma_joined(texts.take(i as int)),
        decreases a.len() - i,
    {
        push_separator(s, i == 0);
        assert(m.contains(a@[i as int]));
        push_slot_text(s, a[i], m, fl);
        proof {
            lemma_comma_joined_push(texts.take(i as int), texts[i as int]);
            assert(texts.take(i + 1) =~= texts.take(i as int).push(texts[i as int]));
            if all {
                assert(plain_slot(m, a@[i as int]));
                assert(s@ =~= old(s)@ + seq!['['] + comma_joined(texts.take(i + 1)));
            }
        }
        i += 1;
    }
    assert(texts.take(a.len() as int) =~= texts);
    s.push(']');
    assert(all ==> s@ =~= old(s)@ + seq!['['] + comma_joined(texts) + seq![']']);
}

/// Appends `{`, the texts of the fields `d` and `}` to `s`.
fn push_dict_text<F: FloatUnit>(
    s: &mut String,
    d: &Vec<(String, ValueKey)>,
    m: &Memory,
    fl: &F,
    Ghost(bound): Ghost<nat>,
)
    requires
        m.wf(),
        forall|i: int|
            0 <= i < d@.len() ==> m.contains((#[trigger] d@[i]).1) && m.rank_of(d@[i].1) < bound,
    ensures
        (forall|i: int| 0 <= i < d@.len() ==> plain_slot(m, (#[trigger] d@[i]).1)) ==> final(s)@
            == old(s)@ + seq!['{'] + comma_joined(
            d@.map_values(|p: (String, ValueKey)| (p.0@, p.1)).map_values(
                |f: (Seq<char>, ValueKey)| field_text(f, text_in(m)),
            ),
        ) + seq!['}'],
    decreases bound, 0nat,
{
    s.push('{');
    let ghost dv = d@.map_values(|p: (String, ValueKey)| (p.0@, p.1));
    let ghost texts = dv.map_values(|f: (Seq<char>, ValueKey)| field_text(f, text_in(m)));
    let ghost all = forall|i: int| 0 <= i < d@.len() ==> plain_slot(m, (#[trigger] d@[i]).1);
    let mut i: usize = 0;
    assert(texts.take(0) =~= Seq::empty());
    while i < d.len()
        invariant
            i <= d.len(),
            m.wf(),
            forall|i: int|
                0 <= i < d@.len() ==> m.contains((#[trigger] d@[i]).1) && m.rank_of(d@[i].1)
                    < bound,
            dv == d@.map_values(|p: (String, ValueKey)| (p.0@, p.1)),
            texts == dv.map_values(|f: (Seq<char>, ValueKey)| field_text(f, text_in(m))),
            all == (forall|i: int| 0 <= i < d@.len() ==> plain_slot(m, (#[trigger] d@[i]).1)),
            all ==> s@ == old(s)@ + seq!['{'] + comma_joined(texts.take(i as int)),
        decreases d.len() - i,
    {
        push_separator(s, i == 0);
        assert(m.contains(d@[i as int].1));
        assert(dv[i as int] == (d@[i as int].0@, d@[i as int].1));
        let ghost mid = s@;
        s.append(d[i].0.as_str());
        s.push(':');
        s.push(' ');
        push_slot_text(s, d[i].1, m, fl);
        proof {
            lemma_comma_joined_push(texts.take(i as int), texts[i as int]);
            assert(texts.take(i + 1) =~= texts.take(i as int).push(texts[i as int]));
            if all {
                assert(plain_slot(m, d@[i as int].1));
                assert(s@ =~= mid + texts[i as int]);
                assert(s@ =~= old(s)@ + seq!['{'] + comma_joined(texts.take(i + 1)));
            }
        }
        i += 1;
    }
    assert(texts.take(d.len() as int) =~= texts);
    s.push('}');
    assert(all ==> s@ =~= old(s)@ + seq!['{'] + comma_joined(texts) + seq!['}']);
}

/// Appends the text of one parameter of a macro to `s`.
fn push_arg_text<F: FloatUnit>(
    s: &mut String,
    a: &MacroArg,
    m: &Memory,
    fl: &F,
    Ghost(bound): Ghost<nat>,
)
    requires
        m.wf(),
        a.default matches Some(k) ==> m.contains(k) && m.rank_of(k) < bound,
    ensures
        (a.default matches Some(k) ==> plain_slot(m, k)) ==> final(s)@ == old(s)@ + arg_text(
            a@,
            text_in(m),
        ),
    decreases bound, 0nat,
{
    s.append(a.name.as_str());
    match &a.pattern {
        Some(p) => {
            s.push(':');
            s.push(' ');
            p.0.push_text(s);
        },
        None => {},
    }
    assert(s@ =~= old(s)@ + a@.name + (match a@.pattern {
        Some(p) => seq![':', ' '] + p.0.text(),
        None => Seq::<char>::empty(),
    }));
    let ghost mid = s@;
    match a.default {
        Some(k) => {
            s.push(' ');
            s.push('=');
            s.push(' ');
            push_slot_text(s, k, m, fl);
            assert(plain_slot(m, k) ==> s@ =~= mid + (seq![' ', '=', ' '] + text_in(m)(k)));
        },
        None => {
            assert(s@ =~= mid + Seq::<char>::empty());
        },
    }
}

/// Appends the texts of the parameters `args`, in brackets, to `s`.
fn push_args_text<F: FloatUnit>(
    s: &mut String,
    args: &Vec<MacroArg>,
    m: &Memory,
    fl: &F,
    Ghost(bound): Ghost<nat>,
)
    requires
        m.wf(),
        forall|i: int|
            0 <= i < args@.len() ==> ((#[trigger] args@[i]).default matches Some(k) ==> m.contains(
                k,
            ) && m.rank_of(k) < bound),
    ensures
        (forall|i: int|
            0 <= i < args@.len() ==> ((#[trigger] args@[i]).default matches Some(k) ==> plain_slot(
                m,
                k,
            ))) ==> final(s)@ == old(s)@ + seq!['('] + comma_joined(
            args@.map_values(|a: MacroArg| a@).map_values(
                |a: MacroArgView| arg_text(a, text_in(m)),
            ),
        ),
    decreases bound, 1nat,
{
    s.push('(');
    let ghost av = args@.map_values(|a: MacroArg| a@);
    let ghost texts = av.map_values(|a: MacroArgView| arg_text(a, text_in(m)));
    let ghost all = forall|i: int|
        0 <= i < args@.len() ==> ((#[trigger] args@[i]).default matches Some(k) ==> plain_slot(
            m,
            k,
        ));
    let mut i: usize = 0;
    assert(texts.take(0) =~= Seq::empty());
    while i < args.len()
        invariant
            i <= args.len(),
            m.wf(),
            forall|i: int|
                0 <= i < args@.len() ==> ((#[trigger] args@[i]).default matches Some(k)
                    ==> m.contains(k) && m.rank_of(k) < bound),
            av == args@.map_values(|a: MacroArg| a@),
            texts == av.map_values(|a: MacroArgView| arg_text(a, text_in(m))),
            all == (forall|i: int|
                0 <= i < args@.len() ==> ((#[trigger] args@[i]).default matches Some(k)
                    ==> plain_slot(m, k))),
            all ==> s@ == old(s)@ + seq!['('] + comma_joined(texts.take(i as int)),
        decreases args.len() - i,
    {
        push_separator(s, i == 0);
        let ghost mid = s@;
        assert(av[i as int] == args@[i as int]@);
        let ghost this = args@[i as int];
        assert(this.default matches Some(k) ==> m.contains(k) && m.rank_of(k) < bound);
        push_arg_text(s, &args[i], m, fl, Ghost(bound));
        proof {
            lemma_comma_joined_push(texts.take(i as int), texts[i as int]);
            assert(texts.take(i + 1) =~= texts.take(i as int).push(texts[i as int]));
            if all {
                assert(this.default matches Some(k) ==> plain_slot(m, k));
                assert(s@ =~= mid + texts[i as int]);
                assert(s@ =~= old(s)@ + seq!['('] + comma_joined(texts.take(i + 1)));
            }
        }
        i += 1;
    }
    assert(texts.take(args.len() as int) =~= texts);
}

fn push_value_text<F: FloatUnit>(
    s: &mut String,
    v: &Value,
    m: &Memory,
    fl: &F,
    Ghost(bound): Ghost<nat>,
)
    requires
        m.wf(),
        m.holds(v@),
        forall|i: int| 0 <= i < v@.parts().len() ==> m.rank_of(#[trigger] v@.parts()[i]) < bound,
    ensures
        plain(m, v@) ==> final(s)@ == old(s)@ + value_text(m, v@),
    decreases bound, 2nat,
{
    match v {
        Value::Int(n) => {
            push_int_numeral(s, *n);
        },
        Value::Float(x) => match whole_size(*x) {
            Some(size) => {
                let ghost before = s@;
                if *x & SIGN_BIT != 0 {
                    s.push('-');
                }
                push_numeral(s, size);
                assert(s@ =~= before + whole_float_text(*x));
            },
            None => {
                let t = fl.show(*x);
                s.append(t.as_str());
            },
        },
        Value::String(t) => {
            s.append(t.as_str());
        },
        Value::Bool(b) => {
            if *b {
                s.append("true");
            } else {
                s.append("false");
            }
        },
        Value::Empty => {
            s.append("()");
        },
        Value::Array(a) => {
            assert forall|i: int| 0 <= i < a@.len() implies m.contains(#[trigger] a@[i])
                && m.rank_of(a@[i]) < bound by {
                assert(v@.parts()[i] == a@[i]);
            }
            push_array_text(s, a, m, fl, Ghost(bound));
            proof {
                if plain(m, v@) {
                    assert forall|i: int| 0 <= i < a@.len() implies plain_slot(
                        m,
                        #[trigger] a@[i],
                    ) by {
                        assert(v@.parts()[i] == a@[i]);
                    }
                }
            }
        },
        Value::Dict(d) => {
            assert forall|i: int| 0 <= i < d@.len() implies m.contains((#[trigger] d@[i]).1)
                && m.rank_of(d@[i].1) < bound by {
                assert(v@.parts()[i] == d@[i].1);
            }
            push_dict_text(s, d, m, fl, Ghost(bound));
            proof {
                if plain(m, v@) {
                    assert forall|i: int| 0 <= i < d@.len() implies plain_slot(
                        m,
                        (#[trigger] d@[i]).1,
                    ) by {
                        assert(v@.parts()[i] == d@[i].1);
                    }
                }
            }
        },
        Value::Maybe(None) => {
            s.push('?');
            assert(s@ =~= old(s)@ + value_text(m, v@));
        },
        Value::Maybe(Some(k)) => {
            assert(v@.parts()[0] == *k);
            push_slot_text(s, *k, m, fl);
            s.push('?');
            proof {
                if plain(m, v@) {
                    assert(plain_slot(m, v@.parts()[0]));
                    assert(s@ =~= old(s)@ + value_text(m, v@));
                }
            }
        },
        Value::TypeIndicator(t) => {
            let n = t.to_str();
            s.append(n.as_str());
        },
        Value::Pattern(p) => {
            p.push_text(s);
        },
        Value::Group(id) => {
            let n = id.to_str();
            s.append(n.as_str());
            s.push('g');
            assert(s@ =~= old(s)@ + value_text(m, v@));
        },
        Value::Color(id) => {
            let n = id.to_str();
            s.append(n.as_str());
            s.push('c');
            assert(s@ =~= old(s)@ + value_text(m, v@));
        },
        Value::Block(id) => {
            let n = id.to_str();
            s.append(n.as_str());
            s.push('b');
            assert(s@ =~= old(s)@ + value_text(m, v@));
        },
        Value::Item(id) => {
            let n = id.to_str();
            s.append(n.as_str());
            s.push('i');
            assert(s@ =~= old(s)@ + value_text(m, v@));
        },
        Value::TriggerFunc { .. } => {
            s.append("!{...}");
        },
        Value::Macro(mac) => {
            let ghost mv = v@->Macro_0;
            assert forall|i: int| 0 <= i < mac.args@.len() implies ((#[trigger] mac.args@[i]).default matches Some(
                k,
            ) ==> m.contains(k) && m.rank_of(k) < bound) by {
                assert(mv.args[i] == mac.args@[i]@);
                if mac.args@[i].default is Some {
                    let j = lemma_default_is_part(mv.args, i);
                    assert(v@.parts()[j] == mac.args@[i].default->0);
                }
            }
            push_args_text(s, &mac.args, m, fl, Ghost(bound));
            proof {
                if plain(m, v@) {
                    assert forall|i: int| 0 <= i < mac.args@.len() implies ((#[trigger] mac.args@[i]).default matches Some(
                        k,
                    ) ==> plain_slot(m, k)) by {
                        assert(mv.args[i] == mac.args@[i]@);
                        if mac.args@[i].default is Some {
                            let j = lemma_default_is_part(mv.args, i);
                            assert(v@.parts()[j] == mac.args@[i].default->0);
                        }
                    }
                }
            }
            s.append(") -> ");
            mac.ret_type.0.push_text(s);
            s.append(" {...}");
            assert(plain(m, v@) ==> s@ =~= old(s)@ + value_text(m, v@));
        },
        Value::Object(o) => {
            let t = debug_form(o);
            s.append(t.as_str());
        },
    }
}

impl Value {
    /// The text of the value, as `print` shows it. The text of a float is
    /// what `fl` makes of it, and the text of an object is its debug form.
    pub fn to_str<F: FloatUnit>(&self, m: &Memory, fl: &F) -> (r: String)
        requires
            m.wf(),
            m.holds(self@),
        ensures
            plain(m, self@) ==> r@ == value_text(m, self@),
    {
        let mut s = String::new();
        proof {
            assert forall|i: int| 0 <= i < self@.parts().len() implies m.rank_of(
                #[trigger] self@.parts()[i],
            ) < m.top@ by {
                assert(m.contains(self@.parts()[i]));
            }
        }
        push_value_text(&mut s, self, m, fl, Ghost(m.top@));
        assert(plain(m, self@) ==> s@ =~= value_text(m, self@));
        s
    }
}

} // verus!
