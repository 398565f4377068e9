//! The wire format of objects: `key,value,` pairs, one object to a `;`.

use vstd::prelude::*;
use crate::float::{
    float_abs, float_lt, less, magnitude, small_whole, whole_of, FloatUnit, THOUSANDTH,
};
use crate::ids::{Group, SPWN_SIGNATURE_GROUP};
use crate::objects::{copy_groups, param_of, with_param, GdObj, ObjParam, ObjParamView, ObjectMode};
use crate::text::{int_numeral, int_numeral_string, join, numeral, push_numeral};

verus! {

/// The text of an id: its number, or `0` for a placeholder.
pub open spec fn id_text(id: u16, arbitrary: bool) -> Seq<char> {
    if arbitrary {
        seq!['0']
    } else {
        numeral(id as nat)
    }
}

/// The texts of the ids of a list of groups.
pub open spec fn group_texts(l: Seq<Group>) -> Seq<Seq<char>> {
    l.map_values(|g: Group| id_text(g.id, g.arbitrary))
}

/// Whether the text of a parameter is fixed here: that of every parameter
/// but a number, and that of a number that is a whole number of 32 bits. The
/// text of any other number is what the floating-point unit makes of it.
pub open spec fn has_fixed_text(p: ObjParamView) -> bool {
    p matches ObjParamView::Number(x) ==> small_whole(x) is Some
}

/// The text of a parameter whose text is fixed here: an id as [`id_text`]
/// has it, a truth value as `1` or `0`, a text as it is, a list of groups as
/// the texts of its ids with `.` between them, epsilon as `0.05`, a whole
/// number as its numeral.
pub open spec fn exact_text(p: ObjParamView) -> Seq<char> {
    match p {
        ObjParamView::Group(g) => id_text(g.id, g.arbitrary),
        ObjParamView::Color(g) => id_text(g.id, g.arbitrary),
        ObjParamView::Block(g) => id_text(g.id, g.arbitrary),
        ObjParamView::Item(g) => id_text(g.id, g.arbitrary),
        ObjParamView::Number(x) => match small_whole(x) {
            Some(n) => int_numeral(n as int),
            None => Seq::<char>::empty(),
        },
        ObjParamView::Bool(b) => if b {
            seq!['1']
        } else {
            seq!['0']
        },
        ObjParamView::Text(t) => t,
        ObjParamView::GroupList(l) => join(group_texts(l), '.'),
        ObjParamView::Epsilon => "0.05"@,
    }
}

/// The text of a number, given what the floating-point unit found: the
/// whole number that it is within a thousandth of, or its decimal form
/// with three places.
pub open spec fn number_form(near_whole: bool, whole: i32, decimal: Seq<char>) -> Seq<char> {
    if near_whole {
        int_numeral(whole as int)
    } else {
        decimal
    }
}

/// Computes [`number_form`].
pub fn number_text(near_whole: bool, whole: i32, decimal: String) -> (r: String)
    ensures
        r@ == number_form(near_whole, whole, decimal@),
{
    if near_whole {
        int_numeral_string(whole as i64)
    } else {
        decimal
    }
}

/// Whether a number that is `off` away from the whole number nearest to it
/// is written as a whole number: it is less than a thousandth away, to
/// either side.
pub open spec fn within_thousandth(off: u64) -> bool {
    float_lt(float_abs(off), THOUSANDTH)
}

/// The text of a number, given what the floating-point unit found of it:
/// `off`, how far it is from the whole number nearest to it; `whole`, that
/// whole number; and `decimal`, its decimal form with three places.
pub fn rounded_text(off: u64, whole: i32, decimal: String) -> (r: String)
    ensures
        r@ == number_form(within_thousandth(off), whole, decimal@),
{
    number_text(less(magnitude(off), THOUSANDTH), whole, decimal)
}

/// The text of a number: the whole number nearest to it where it is within
/// a thousandth of that, else the number with three decimal places. A whole
/// number of 32 bits is written here. For any other number the
/// floating-point unit rounds the number, takes the difference, turns the
/// rounded number into an integer and writes the decimal form;
/// [`rounded_text`] makes the text of what it found.
fn format_number<F: FloatUnit>(x: u64, fl: &F) -> (r: String)
    ensures
        small_whole(x) matches Some(n) ==> r@ == int_numeral(n as int),
{
    match whole_of(x) {
        Some(n) => {
            return int_numeral_string(n as i64);
        },
        None => {},
    }
    let nearest = fl.round(x);
    rounded_text(fl.difference(nearest, x), fl.to_i32(nearest), fl.fixed(x, 3))
}

fn push_id_text(s: &mut String, id: u16, arbitrary: bool)
    ensures
        final(s)@ == old(s)@ + id_text(id, arbitrary),
{
    if arbitrary {
        s.push('0');
        assert(s@ =~= old(s)@ + seq!['0']);
    } else {
        push_numeral(s, id as u64);
    }
}

/// The text of a parameter. That of a number is what `fl` makes of it.
pub fn param_text<F: FloatUnit>(p: &ObjParam, fl: &F) -> (r: String)
    ensures
        has_fixed_text(p@) ==> r@ == exact_text(p@),
{
    let mut s = String::new();
    match p {
        ObjParam::Group(g) => {
            push_id_text(&mut s, g.id, g.arbitrary);
        },
        ObjParam::Color(g) => {
            push_id_text(&mut s, g.id, g.arbitrary);
        },
        ObjParam::Block(g) => {
            push_id_text(&mut s, g.id, g.arbitrary);
        },
        ObjParam::Item(g) => {
            push_id_text(&mut s, g.id, g.arbitrary);
        },
        ObjParam::Number(x) => {
            return format_number(*x, fl);
        },
        ObjParam::Bool(b) => {
            if *b {
                s.push('1');
            } else {
                s.push('0');
            }
        },
        ObjParam::Text(t) => {
            s.append(t.as_str());
        },
        ObjParam::GroupList(l) => {
            let ghost texts = group_texts(l@);
            let mut i: usize = 0;
            assert(texts.take(0) =~= Seq::empty());
            while i < l.len()
                invariant
                    i <= l.len(),
                    texts == group_texts(l@),
                    s@ == join(texts.take(i as int), '.'),
                decreases l.len() - i,
            {
                if i > 0 {
                    s.push('.');
                }
                push_id_text(&mut s, l[i].id, l[i].arbitrary);
                assert(texts.take(i + 1).drop_last() =~= texts.take(i as int));
                assert(s@ =~= join(texts.take(i + 1), '.'));
                i += 1;
            }
            assert(texts.take(l.len() as int) =~= texts);
        },
        ObjParam::Epsilon => {
            s.append("0.05");
        },
    }
    assert(has_fixed_text(p@) ==> s@ =~= exact_text(p@));
    s
}

/// What parameter 57 becomes when the signature group is put in: a list
/// gets it at its end, a single group becomes the list of itself and it, and
/// anything else gives way to it.
pub open spec fn signed_groups(held: Option<ObjParamView>) -> ObjParamView {
    match held {
        Some(ObjParamView::GroupList(l)) => ObjParamView::GroupList(l.push(Group::signature())),
        Some(ObjParamView::Group(g)) => ObjParamView::GroupList(seq![g, Group::signature()]),
        _ => ObjParamView::Group(Group::signature()),
    }
}

/// The parameters of an object with the signature group put into parameter
/// 57.
pub open spec fn signed_params(params: Seq<(u16, ObjParamView)>) -> Seq<(u16, ObjParamView)> {
    with_param(params, 57, signed_groups(param_of(params, 57)))
}

/// Puts the signature group into parameter 57 of `obj`.
pub fn sign(obj: &mut GdObj)
    requires
        old(obj).wf(),
    ensures
        final(obj).wf(),
        final(obj)@.mode == old(obj)@.mode,
        final(obj)@.params == signed_params(old(obj)@.params),
{
    let sig = Group { id: SPWN_SIGNATURE_GROUP, arbitrary: false };
    let found = obj.find(57);
    let ghost ps = obj@.params;
    let new57 = match found {
        Some(i) => {
            proof {
                assert(ps[i as int].0 == 57);
                let w = choose|w: int| 0 <= w < ps.len() && ps[w].0 == 57u16;
                if w < i {
                    assert(ps[w].0 < ps[i as int].0);
                } else if i < w {
                    assert(ps[i as int].0 < ps[w].0);
                }
                assert(param_of(ps, 57) == Some(ps[i as int].1));
            }
            match &obj.params[i].1 {
                ObjParam::GroupList(l) => {
                    let mut l2 = copy_groups(l);
                    l2.push(sig);
                    ObjParam::GroupList(l2)
                },
                ObjParam::Group(g) => {
                    let mut l2: Vec<Group> = Vec::new();
                    l2.push(*g);
                    l2.push(sig);
                    assert(l2@ =~= seq![*g, Group::signature()]);
                    ObjParam::GroupList(l2)
                },
                _ => ObjParam::Group(sig),
            }
        },
        None => {
            proof {
                assert forall|w: int| 0 <= w < ps.len() implies ps[w].0 != 57u16 by {
                    assert(ps[w].0 == obj.params@[w].0);
                }
                assert(param_of(ps, 57) is None);
            }
            ObjParam::Group(sig)
        },
    };
    obj.insert(57, new57);
}

/// The text of a list of parameters that were put into text: for each its
/// key, `,`, its text and `,`.
pub open spec fn pairs_text(pairs: Seq<(u16, Seq<char>)>) -> Seq<char>
    decreases pairs.len(),
{
    if pairs.len() == 0 {
        Seq::<char>::empty()
    } else {
        pairs_text(pairs.drop_last()) + numeral(pairs.last().0 as nat) + seq![','] + pairs.last().1
            + seq![',']
    }
}

/// What ends the text of an object: `;`, after `108,1` for a trigger.
pub open spec fn closing(mode: ObjectMode) -> Seq<char> {
    match mode {
        ObjectMode::Object => seq![';'],
        ObjectMode::Trigger => "108,1;"@,
    }
}

/// The text of an object whose parameters were put into text.
pub open spec fn object_text(pairs: Seq<(u16, Seq<char>)>, mode: ObjectMode) -> Seq<char> {
    pairs_text(pairs) + closing(mode)
}

/// The mathematical value of a list of parameters put into text.
pub open spec fn pairs_view(pairs: Seq<(u16, String)>) -> Seq<(u16, Seq<char>)> {
    pairs.map_values(|p: (u16, String)| (p.0, p.1@))
}

/// Whether `pairs` are the parameters `params` put into text: key by key,
/// and text by text wherever the text is fixed here.
pub open spec fn renders(params: Seq<(u16, ObjParamView)>, pairs: Seq<(u16, Seq<char>)>) -> bool {
    &&& pairs.len() == params.len()
    &&& forall|i: int|
        0 <= i < params.len() ==> (#[trigger] pairs[i]).0 == params[i].0 && (has_fixed_text(
            params[i].1,
        ) ==> pairs[i].1 == exact_text(params[i].1))
}

/// Puts the parameters of an object into text, in the order of their keys.
pub fn render_params<F: FloatUnit>(obj: &GdObj, fl: &F) -> (r: Vec<(u16, String)>)
    ensures
        renders(obj@.params, pairs_view(r@)),
{
    let mut r: Vec<(u16, String)> = Vec::new();
    let mut i: usize = 0;
    while i < obj.params.len()
        invariant
            i <= obj.params.len(),
            r@.len() == i,
            forall|j: int|
                0 <= j < i ==> (#[trigger] r@[j]).0 == obj.params@[j].0 && (has_fixed_text(
                    obj.params@[j].1@,
                ) ==> r@[j].1@ == exact_text(obj.params@[j].1@)),
        decreases obj.params.len() - i,
    {
        let t = param_text(&obj.params[i].1, fl);
        r.push((obj.params[i].0, t));
        i += 1;
    }
    r
}

/// Joins parameters that were put into text to the text of an object.
pub fn join_params(pairs: &Vec<(u16, String)>, mode: ObjectMode) -> (r: String)
    ensures
        r@ == object_text(pairs_view(pairs@), mode),
{
    let mut s = String::new();
    let ghost pv = pairs_view(pairs@);
    let mut i: usize = 0;
    assert(pv.take(0) =~= Seq::empty());
    while i < pairs.len()
        invariant
            i <= pairs.len(),
            pv == pairs_view(pairs@),
            s@ == pairs_text(pv.take(i as int)),
        decreases pairs.len() - i,
    {
        assert(pv.take(i + 1).drop_last() =~= pv.take(i as int));
        assert(pv.take(i + 1).last() == (pairs@[i as int].0, pairs@[i as int].1@));
        push_numeral(&mut s, pairs[i].0 as u64);
        s.push(',');
        s.append(pairs[i].1.as_str());
        s.push(',');
        assert(s@ =~= pairs_text(pv.take(i + 1)));
        i += 1;
    }
    assert(pv.take(pairs.len() as int) =~= pv);
    match mode {
        ObjectMode::Object => {
            s.push(';');
        },
        ObjectMode::Trigger => {
            s.append("108,1;");
        },
    }
    assert(s@ =~= object_text(pv, mode));
    s
}

/// The text of an object: the signature group is put into parameter 57,
/// then the parameters follow in the order of their keys, and a trigger
/// ends in `108,1`.
pub fn serialize_obj<F: FloatUnit>(trigger: GdObj, fl: &F) -> (r: String)
    requires
        trigger.wf(),
    ensures
        exists|pairs: Seq<(u16, Seq<char>)>| #[trigger]
            renders(signed_params(trigger@.params), pairs) && r@ == object_text(
                pairs,
                trigger@.mode,
            ),
{
    let mut obj = trigger;
    sign(&mut obj);
    let pairs = render_params(&obj, fl);
    let r = join_params(&pairs, obj.mode);
    assert(renders(signed_params(trigger@.params), pairs_view(pairs@)));
    r
}

} // verus!
