//! Equality of values as the language sees it.

use vstd::prelude::*;
use crate::float::{equal, float_eq, int_eq_float, int_equals, lemma_float_eq_symmetric};
use crate::memory::Memory;
use crate::value::{Value, ValueKey, ValueView};

verus! {

/// Whether two floats are equal as values: they are the same number, or
/// they have the same bits, so that a NaN equals itself.
pub open spec fn same_float(x: u64, y: u64) -> bool {
    x == y || float_eq(x, y)
}

/// Whether two values are equal, given when two of their parts are: an
/// integer and a float are equal when they are the same number, two floats
/// as [`same_float`] has it; arrays element by element; dictionaries when they have the
/// same names with equal fields; two maybes that hold something when what
/// they hold is equal; any other two values when they are the same.
pub open spec fn shapes_equal(
    a: ValueView,
    b: ValueView,
    part_eq: spec_fn(ValueKey, ValueKey) -> bool,
) -> bool {
    match (a, b) {
        (ValueView::Int(x), ValueView::Float(y)) => int_eq_float(x, y),
        (ValueView::Float(x), ValueView::Int(y)) => int_eq_float(y, x),
        (ValueView::Float(x), ValueView::Float(y)) => same_float(x, y),
        (ValueView::Array(s), ValueView::Array(t)) => s.len() == t.len() && forall|i: int|
            0 <= i < s.len() ==> #[trigger] part_eq(s[i], t[i]),
        (ValueView::Dict(s), ValueView::Dict(t)) => {
            &&& s.len() == t.len()
            &&& forall|i: int| 0 <= i < s.len() ==> #[trigger] has_right(s[i], t, part_eq)
            &&& forall|j: int| 0 <= j < t.len() ==> #[trigger] has_left(s, t[j], part_eq)
        },
        (ValueView::Maybe(Some(x)), ValueView::Maybe(Some(y))) => part_eq(x, y),
        _ => a == b,
    }
}

/// Whether two fields have the same name and equal values.
pub open spec fn field_eq(
    f: (Seq<char>, ValueKey),
    g: (Seq<char>, ValueKey),
    part_eq: spec_fn(ValueKey, ValueKey) -> bool,
) -> bool {
    f.0 == g.0 && part_eq(f.1, g.1)
}

/// Whether `f` has a field in `t` that it equals.
pub open spec fn has_right(
    f: (Seq<char>, ValueKey),
    t: Seq<(Seq<char>, ValueKey)>,
    part_eq: spec_fn(ValueKey, ValueKey) -> bool,
) -> bool {
    exists|j: int| 0 <= j < t.len() && #[trigger] field_eq(f, t[j], part_eq)
}

/// Whether a field of `s` equals `g`.
pub open spec fn has_left(
    s: Seq<(Seq<char>, ValueKey)>,
    g: (Seq<char>, ValueKey),
    part_eq: spec_fn(ValueKey, ValueKey) -> bool,
) -> bool {
    exists|i: int| 0 <= i < s.len() && #[trigger] field_eq(s[i], g, part_eq)
}

/// Whether slots `ka` and `kb` hold equal values.
pub open spec fn slots_equal(m: &Memory, ka: ValueKey, kb: ValueKey) -> bool
    decreases m.rank_of(ka), 1nat,
{
    shapes_equal(m.value(ka), m.value(kb), below_eq(m, ka))
}

/// [`slots_equal`] for the slots that rank below `ka`, as the parts of `ka`
/// do.
pub open spec fn below_eq(m: &Memory, ka: ValueKey) -> spec_fn(ValueKey, ValueKey) -> bool
    decreases m.rank_of(ka), 0nat,
{
    |x: ValueKey, y: ValueKey|
        if m.rank_of(x) < m.rank_of(ka) {
            slots_equal(m, x, y)
        } else {
            false
        }
}

/// [`slots_equal`] as a comparison of parts.
pub open spec fn slot_eq(m: &Memory) -> spec_fn(ValueKey, ValueKey) -> bool {
    |x: ValueKey, y: ValueKey| slots_equal(m, x, y)
}

/// Whether `a` and `b`, values over `m`, are equal.
pub open spec fn values_equal(m: &Memory, a: ValueView, b: ValueView) -> bool {
    shapes_equal(a, b, slot_eq(m))
}

/// The guard in [`slots_equal`] never bites in a well-formed arena: two slots
/// are equal when their values are.
pub proof fn lemma_slots_equal_unfold(m: &Memory, ka: ValueKey, kb: ValueKey)
    requires
        m.wf(),
        m.contains(ka),
    ensures
        slots_equal(m, ka, kb) == values_equal(m, m.value(ka), m.value(kb)),
{
    let a = m.value(ka);
    let b = m.value(kb);
    let guarded = below_eq(m, ka);
    let plain = slot_eq(m);
    assert(m.admits(a));
    assert forall|i: int| 0 <= i < a.parts().len() implies m.rank_of(#[trigger] a.parts()[i])
        < m.rank_of(ka) by {}
    lemma_shapes_equal_agree(a, b, guarded, plain);
}

/// [`shapes_equal`] asks its comparison only about parts of the first value.
pub proof fn lemma_shapes_equal_agree(
    a: ValueView,
    b: ValueView,
    f: spec_fn(ValueKey, ValueKey) -> bool,
    g: spec_fn(ValueKey, ValueKey) -> bool,
)
    requires
        forall|i: int, y: ValueKey|
            0 <= i < a.parts().len() ==> #[trigger] f(a.parts()[i], y) == g(a.parts()[i], y),
    ensures
        shapes_equal(a, b, f) == shapes_equal(a, b, g),
{
    match (a, b) {
        (ValueView::Array(s), ValueView::Array(t)) => {
            if s.len() == t.len() {
                assert forall|i: int| 0 <= i < s.len() implies f(s[i], t[i]) == g(s[i], t[i]) by {
                    assert(a.parts()[i] == s[i]);
                }
            }
        },
        (ValueView::Dict(s), ValueView::Dict(t)) => {
            assert forall|i: int, j: int| 0 <= i < s.len() && 0 <= j < t.len() implies field_eq(
                s[i],
                t[j],
                f,
            ) == field_eq(s[i], t[j], g) by {
                assert(a.parts()[i] == s[i].1);
            }
            assert forall|i: int| 0 <= i < s.len() implies has_right(s[i], t, f) == has_right(
                s[i],
                t,
                g,
            ) by {
                if has_right(s[i], t, f) {
                    let j = choose|j: int| 0 <= j < t.len() && #[trigger] field_eq(s[i], t[j], f);
                    assert(field_eq(s[i], t[j], g));
                }
                if has_right(s[i], t, g) {
                    let j = choose|j: int| 0 <= j < t.len() && #[trigger] field_eq(s[i], t[j], g);
                    assert(field_eq(s[i], t[j], f));
                }
            }
            assert forall|j: int| 0 <= j < t.len() implies has_left(s, t[j], f) == has_left(
                s,
                t[j],
                g,
            ) by {
                if has_left(s, t[j], f) {
                    let i = choose|i: int| 0 <= i < s.len() && #[trigger] field_eq(s[i], t[j], f);
                    assert(field_eq(s[i], t[j], g));
                }
                if has_left(s, t[j], g) {
                    let i = choose|i: int| 0 <= i < s.len() && #[trigger] field_eq(s[i], t[j], g);
                    assert(field_eq(s[i], t[j], f));
                }
            }
        },
        (ValueView::Maybe(Some(x)), ValueView::Maybe(Some(y))) => {
            assert(a.parts()[0] == x);
        },
        _ => {},
    }
}

/// Equality of slots does not depend on the order of the two.
pub proof fn lemma_slots_equal_symmetric(m: &Memory, ka: ValueKey, kb: ValueKey)
    requires
        m.wf(),
        m.contains(ka),
        m.contains(kb),
    ensures
        slots_equal(m, ka, kb) == slots_equal(m, kb, ka),
    decreases m.rank_of(ka), 1nat,
{
    lemma_slots_equal_unfold(m, ka, kb);
    lemma_slots_equal_unfold(m, kb, ka);
    assert(m.admits(m.value(ka)));
    assert(m.admits(m.value(kb)));
    lemma_values_equal_symmetric_below(m, m.value(ka), m.value(kb), m.rank_of(ka));
}

/// Equality of values whose first has its parts ranked below `bound` does not
/// depend on the order of the two.
proof fn lemma_values_equal_symmetric_below(m: &Memory, a: ValueView, b: ValueView, bound: nat)
    requires
        m.wf(),
        m.holds(a),
        m.holds(b),
        forall|i: int| 0 <= i < a.parts().len() ==> m.rank_of(#[trigger] a.parts()[i]) < bound,
    ensures
        values_equal(m, a, b) == values_equal(m, b, a),
    decreases bound, 0nat,
{
    let eq = slot_eq(m);
    match (a, b) {
        (ValueView::Int(x), ValueView::Float(y)) => {},
        (ValueView::Float(x), ValueView::Int(y)) => {},
        (ValueView::Float(x), ValueView::Float(y)) => {
            lemma_float_eq_symmetric(x, y);
        },
        (ValueView::Array(s), ValueView::Array(t)) => {
            if s.len() == t.len() {
                assert forall|i: int| 0 <= i < s.len() implies eq(s[i], t[i]) == eq(t[i], s[i]) by {
                    assert(a.parts()[i] == s[i]);
                    assert(b.parts()[i] == t[i]);
                    lemma_slots_equal_symmetric(m, s[i], t[i]);
                }
            }
        },
        (ValueView::Dict(s), ValueView::Dict(t)) => {
            assert forall|i: int, j: int| 0 <= i < s.len() && 0 <= j < t.len() implies field_eq(
                s[i],
                t[j],
                eq,
            ) == field_eq(t[j], s[i], eq) by {
                assert(a.parts()[i] == s[i].1);
                assert(b.parts()[j] == t[j].1);
                lemma_slots_equal_symmetric(m, s[i].1, t[j].1);
            }
            assert forall|i: int| 0 <= i < s.len() implies has_right(s[i], t, eq) == has_left(
                t,
                s[i],
                eq,
            ) by {
                if has_right(s[i], t, eq) {
                    let j = choose|j: int| 0 <= j < t.len() && #[trigger] field_eq(s[i], t[j], eq);
                    assert(field_eq(t[j], s[i], eq));
                }
                if has_left(t, s[i], eq) {
                    let j = choose|j: int| 0 <= j < t.len() && #[trigger] field_eq(t[j], s[i], eq);
                    assert(field_eq(s[i], t[j], eq));
                }
            }
            assert forall|j: int| 0 <= j < t.len() implies has_left(s, t[j], eq) == has_right(
                t[j],
                s,
                eq,
            ) by {
                if has_left(s, t[j], eq) {
                    let i = choose|i: int| 0 <= i < s.len() && #[trigger] field_eq(s[i], t[j], eq);
                    assert(field_eq(t[j], s[i], eq));
                }
                if has_right(t[j], s, eq) {
                    let i = choose|i: int| 0 <= i < s.len() && #[trigger] field_eq(t[j], s[i], eq);
                    assert(field_eq(s[i], t[j], eq));
                }
            }
        },
        (ValueView::Maybe(Some(x)), ValueView::Maybe(Some(y))) => {
            assert(a.parts()[0] == x);
            assert(b.parts()[0] == y);
            lemma_slots_equal_symmetric(m, x, y);
        },
        _ => {},
    }
}

/// Equality of values does not depend on the order of the two.
pub proof fn lemma_equality_symmetric(m: &Memory, a: ValueView, b: ValueView)
    requires
        m.wf(),
        m.holds(a),
        m.holds(b),
    ensures
        values_equal(m, a, b) == values_equal(m, b, a),
{
    assert forall|i: int| 0 <= i < a.parts().len() implies m.rank_of(#[trigger] a.parts()[i])
        < m.top@ by {
        assert(m.contains(a.parts()[i]));
    }
    lemma_values_equal_symmetric_below(m, a, b, m.top@);
}

/// A slot equals itself.
pub proof fn lemma_slots_equal_reflexive(m: &Memory, k: ValueKey)
    requires
        m.wf(),
        m.contains(k),
    ensures
        slots_equal(m, k, k),
    decreases m.rank_of(k),
{
    lemma_slots_equal_unfold(m, k, k);
    let a = m.value(k);
    let eq = slot_eq(m);
    assert(m.admits(a));
    match a {
        ValueView::Array(s) => {
            assert forall|i: int| 0 <= i < s.len() implies #[trigger] eq(s[i], s[i]) by {
                assert(a.parts()[i] == s[i]);
                lemma_slots_equal_reflexive(m, s[i]);
            }
        },
        ValueView::Dict(s) => {
            assert forall|i: int| 0 <= i < s.len() implies field_eq(s[i], s[i], eq) by {
                assert(a.parts()[i] == s[i].1);
                lemma_slots_equal_reflexive(m, s[i].1);
            }
            assert forall|i: int| 0 <= i < s.len() implies #[trigger] has_right(s[i], s, eq) by {
                assert(field_eq(s[i], s[i], eq));
            }
            assert forall|i: int| 0 <= i < s.len() implies #[trigger] has_left(s, s[i], eq) by {
                assert(field_eq(s[i], s[i], eq));
            }
        },
        ValueView::Maybe(Some(x)) => {
            assert(a.parts()[0] == x);
            lemma_slots_equal_reflexive(m, x);
        },
        _ => {},
    }
}

/// A value equals itself.
pub proof fn lemma_equality_reflexive(m: &Memory, a: ValueView)
    requires
        m.wf(),
        m.admits(a),
    ensures
        values_equal(m, a, a),
{
    let eq = slot_eq(m);
    match a {
        ValueView::Array(s) => {
            assert forall|i: int| 0 <= i < s.len() implies #[trigger] eq(s[i], s[i]) by {
                assert(a.parts()[i] == s[i]);
                lemma_slots_equal_reflexive(m, s[i]);
            }
        },
        ValueView::Dict(s) => {
            assert forall|i: int| 0 <= i < s.len() implies field_eq(s[i], s[i], eq) by {
                assert(a.parts()[i] == s[i].1);
                lemma_slots_equal_reflexive(m, s[i].1);
            }
            assert forall|i: int| 0 <= i < s.len() implies #[trigger] has_right(s[i], s, eq) by {
                assert(field_eq(s[i], s[i], eq));
            }
            assert forall|i: int| 0 <= i < s.len() implies #[trigger] has_left(s, s[i], eq) by {
                assert(field_eq(s[i], s[i], eq));
            }
        },
        ValueView::Maybe(Some(x)) => {
            assert(a.parts()[0] == x);
            lemma_slots_equal_reflexive(m, x);
        },
        _ => {},
    }
}

/// A mixed pair of an integer and a float is equal exactly when the two are
/// the same number, on whichever side the integer stands.
pub proof fn lemma_equality_mixed(m: &Memory, n: i64, x: u64)
    ensures
        values_equal(m, ValueView::Int(n), ValueView::Float(x)) == int_eq_float(n, x),
        values_equal(m, ValueView::Float(x), ValueView::Int(n)) == int_eq_float(n, x),
{
}

/// Whether slots `ka` and `kb` hold equal values.
fn slots_equality(ka: ValueKey, kb: ValueKey, m: &Memory) -> (r: bool)
    requires
        m.wf(),
        m.contains(ka),
        m.contains(kb),
    ensures
        r == slots_equal(m, ka, kb),
    decreases m.rank_of(ka), 1nat,
{
    proof {
        lemma_slots_equal_unfold(m, ka, kb);
        assert(m.admits(m.value(ka)));
        assert(m.admits(m.value(kb)));
    }
    equality_below(&m.get(ka).value, &m.get(kb).value, m, Ghost(m.rank_of(ka)))
}

/// The position in `t` of the field named as `f` is, if there is one.
fn field_named(name: &String, t: &Vec<(String, ValueKey)>) -> (r: Option<usize>)
    ensures
        match r {
            Some(j) => j < t.len() && t@[j as int].0@ == name@,
            None => forall|j: int| 0 <= j < t@.len() ==> t@[j].0@ != name@,
        },
{
    let mut j: usize = 0;
    while j < t.len()
        invariant
            j <= t.len(),
            forall|q: int| 0 <= q < j ==> t@[q].0@ != name@,
        decreases t.len() - j,
    {
        if t[j].0 == *name {
            return Some(j);
        }
        j += 1;
    }
    None
}

#[verifier::loop_isolation(false)]
fn equality_below(a: &Value, b: &Value, m: &Memory, Ghost(bound): Ghost<nat>) -> (r: bool)
    requires
        m.wf(),
        m.admits(a@),
        m.admits(b@),
        forall|i: int| 0 <= i < a@.parts().len() ==> m.rank_of(#[trigger] a@.parts()[i]) < bound,
    ensures
        r == values_equal(m, a@, b@),
    decreases bound, 0nat,
{
    let ghost eq = slot_eq(m);
    match (a, b) {
        (Value::Int(x), Value::Float(y)) => int_equals(*x, *y),
        (Value::Float(x), Value::Int(y)) => int_equals(*y, *x),
        (Value::Float(x), Value::Float(y)) => *x == *y || equal(*x, *y),
        (Value::Array(s), Value::Array(t)) => {
            if s.len() != t.len() {
                return false;
            }
            let mut i: usize = 0;
            while i < s.len()
                invariant
                    i <= s.len(),
                    forall|j: int| 0 <= j < i ==> #[trigger] eq(s@[j], t@[j]),
                decreases s.len() - i,
            {
                assert(a@.parts()[i as int] == s@[i as int]);
                assert(b@.parts()[i as int] == t@[i as int]);
                if !slots_equality(s[i], t[i], m) {
                    assert(!eq(s@[i as int], t@[i as int]));
                    return false;
                }
                i += 1;
            }
            true
        },
        (Value::Dict(s), Value::Dict(t)) => {
            if s.len() != t.len() {
                return false;
            }
            let ghost sv = a@->Dict_0;
            let ghost tv = b@->Dict_0;
            let mut i: usize = 0;
            while i < s.len()
                invariant
                    i <= s.len(),
                    forall|j: int| 0 <= j < i ==> #[trigger] has_right(sv[j], tv, eq),
                decreases s.len() - i,
            {
                assert(a@.parts()[i as int] == s@[i as int].1);
                match field_named(&s[i].0, t) {
                    Some(j) => {
                        assert(b@.parts()[j as int] == t@[j as int].1);
                        if !slots_equality(s[i].1, t[j].1, m) {
                            assert(!has_right(sv[i as int], tv, eq)) by {
                                assert forall|q: int| 0 <= q < tv.len() implies !field_eq(
                                    sv[i as int],
                                    tv[q],
                                    eq,
                                ) by {
                                    if q != j {
                                        assert(tv[q].0 != tv[j as int].0);
                                    }
                                }
                            }
                            return false;
                        }
                        assert(field_eq(sv[i as int], tv[j as int], eq));
                    },
                    None => {
                        assert(!has_right(sv[i as int], tv, eq)) by {
                            assert forall|q: int| 0 <= q < tv.len() implies !field_eq(
                                sv[i as int],
                                tv[q],
                                eq,
                            ) by {
                                assert(tv[q].0 == t@[q].0@);
                            }
                        }
                        return false;
                    },
                }
                i += 1;
            }
            let mut j: usize = 0;
            while j < t.len()
                invariant
                    j <= t.len(),
                    forall|q: int| 0 <= q < j ==> #[trigger] has_left(sv, tv[q], eq),
                decreases t.len() - j,
            {
                assert(b@.parts()[j as int] == t@[j as int].1);
                match field_named(&t[j].0, s) {
                    Some(i) => {
                        assert(a@.parts()[i as int] == s@[i as int].1);
                        if !slots_equality(s[i].1, t[j].1, m) {
                            assert(!has_left(sv, tv[j as int], eq)) by {
                                assert forall|q: int| 0 <= q < sv.len() implies !field_eq(
                                    sv[q],
                                    tv[j as int],
                                    eq,
                                ) by {
                                    if q != i {
                                        assert(sv[q].0 != sv[i as int].0);
                                    }
                                }
                            }
                            return false;
                        }
                        assert(field_eq(sv[i as int], tv[j as int], eq));
                    },
                    None => {
                        assert(!has_left(sv, tv[j as int], eq)) by {
                            assert forall|q: int| 0 <= q < sv.len() implies !field_eq(
                                sv[q],
                                tv[j as int],
                                eq,
                            ) by {
                                assert(sv[q].0 == s@[q].0@);
                            }
                        }
                        return false;
                    },
                }
                j += 1;
            }
            true
        },
        (Value::Maybe(Some(x)), Value::Maybe(Some(y))) => {
            assert(a@.parts()[0] == *x);
            assert(b@.parts()[0] == *y);
            slots_equality(*x, *y, m)
        },
        _ => a.same(b),
    }
}

/// Whether `a` and `b`, values over the arena `m`, are equal.
pub fn equality(a: &Value, b: &Value, m: &Memory) -> (r: bool)
    requires
        m.wf(),
        m.admits(a@),
        m.admits(b@),
    ensures
        r == values_equal(m, a@, b@),
{
    proof {
        assert forall|i: int| 0 <= i < a@.parts().len() implies m.rank_of(#[trigger] a@.parts()[i])
            < m.top@ by {
            assert(m.contains(a@.parts()[i]));
        }
    }
    equality_below(a, b, m, Ghost(m.top@))
}

} // verus!
