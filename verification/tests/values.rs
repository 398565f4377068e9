use spwn::contexts::ValueIter;
use spwn::equality::equality;
use spwn::error::RuntimeError;
use spwn::float::FloatUnit;
use spwn::globals::Globals;
use spwn::ids::Id;
use spwn::iteration::to_iter;
use spwn::memory::Memory;
use spwn::objects::{GdObj, ObjParam, ObjectMode};
use spwn::sources::CodeArea;
use spwn::value::{
    copy_keys, same_keys, Macro, MacroArg, Pattern, StoredValue, Value, ValueKey, ValueType,
};
use spwn::value_ops::{
    binary, div, float_compare, greater, greater_eq, is_op, lesser, lesser_eq, matches_pat, minus,
    modulo, mult, plus, pow, repeat, to_bool, to_pat, unary_negate, unary_not, Operator,
};

struct Ieee;

impl FloatUnit for Ieee {
    fn from_int(&self, n: i64) -> u64 {
        (n as f64).to_bits()
    }

    fn sum(&self, a: u64, b: u64) -> u64 {
        (f64::from_bits(a) + f64::from_bits(b)).to_bits()
    }

    fn difference(&self, a: u64, b: u64) -> u64 {
        (f64::from_bits(a) - f64::from_bits(b)).to_bits()
    }

    fn product(&self, a: u64, b: u64) -> u64 {
        (f64::from_bits(a) * f64::from_bits(b)).to_bits()
    }

    fn quotient(&self, a: u64, b: u64) -> u64 {
        (f64::from_bits(a) / f64::from_bits(b)).to_bits()
    }

    fn remainder(&self, a: u64, b: u64) -> u64 {
        (f64::from_bits(a) % f64::from_bits(b)).to_bits()
    }

    fn power(&self, a: u64, b: u64) -> u64 {
        f64::from_bits(a).powf(f64::from_bits(b)).to_bits()
    }

    fn round(&self, a: u64) -> u64 {
        f64::from_bits(a).round().to_bits()
    }

    fn floor_to_int(&self, a: u64) -> i64 {
        f64::from_bits(a).floor() as i64
    }

    fn to_i32(&self, a: u64) -> i32 {
        f64::from_bits(a) as i32
    }

    fn show(&self, a: u64) -> String {
        f64::from_bits(a).to_string()
    }

    fn fixed(&self, a: u64, places: usize) -> String {
        format!("{:.1$}", f64::from_bits(a), places)
    }
}

fn area() -> CodeArea {
    CodeArea { source: 0, start: 1, end: 2 }
}

fn call_area() -> CodeArea {
    CodeArea { source: 0, start: 10, end: 20 }
}

fn st(v: Value) -> StoredValue {
    v.into_stored(area())
}

fn put(m: &mut Memory, v: Value) -> ValueKey {
    m.insert(st(v))
}

fn fl(x: f64) -> Value {
    Value::Float(x.to_bits())
}

fn s(text: &str) -> Value {
    Value::String(text.to_string())
}

fn int_of(r: Result<StoredValue, RuntimeError>) -> i64 {
    match r {
        Ok(StoredValue { value: Value::Int(n), def_area }) => {
            assert_eq!(def_area, call_area());
            n
        }
        other => panic!("no integer: {:?}", other),
    }
}

fn float_of(r: Result<StoredValue, RuntimeError>) -> f64 {
    match r {
        Ok(StoredValue { value: Value::Float(x), def_area }) => {
            assert_eq!(def_area, call_area());
            f64::from_bits(x)
        }
        other => panic!("no float: {:?}", other),
    }
}

fn bool_of(r: Result<StoredValue, RuntimeError>) -> bool {
    match r {
        Ok(StoredValue { value: Value::Bool(b), def_area }) => {
            assert_eq!(def_area, call_area());
            b
        }
        other => panic!("no truth value: {:?}", other),
    }
}

fn text_of(r: Result<StoredValue, RuntimeError>) -> String {
    match r {
        Ok(StoredValue { value: Value::String(t), .. }) => t,
        other => panic!("no text: {:?}", other),
    }
}

fn invalid_op(r: Result<StoredValue, RuntimeError>) -> String {
    match r {
        Err(RuntimeError::InvalidOperands { op, area, .. }) => {
            assert_eq!(area, call_area());
            op
        }
        other => panic!("no invalid operands: {:?}", other),
    }
}

#[test]
fn memory_gives_back_what_was_stored() {
    let mut m = Memory::new();
    assert_eq!(m.len(), 0);
    assert!(!m.is_full());
    let a = put(&mut m, Value::Int(5));
    let b = put(&mut m, s("five"));
    assert_eq!(m.len(), 2);
    assert!(m.has(a) && m.has(b));
    assert!(a != b);
    assert!(matches!(m.get(a).value, Value::Int(5)));
    assert!(matches!(&m.get(b).value, Value::String(t) if t == "five"));
    assert_eq!(m.get(a).def_area, area());
}

#[test]
fn try_insert_stores_like_insert() {
    let mut m = Memory::new();
    let k = m.try_insert(st(Value::Bool(true))).unwrap();
    assert!(matches!(m.get(k).value, Value::Bool(true)));
    assert_eq!(m.len(), 1);
}

#[test]
fn keys_compare_by_slot() {
    let mut m = Memory::new();
    let a = put(&mut m, Value::Int(1));
    let b = put(&mut m, Value::Int(1));
    assert!(same_keys(&vec![a, b], &vec![a, b]));
    assert!(!same_keys(&vec![a, b], &vec![b, a]));
    assert!(!same_keys(&vec![a], &vec![a, b]));
    assert_eq!(copy_keys(&vec![a, b]), vec![a, b]);
    assert!(Value::Maybe(Some(a)).same(&Value::Maybe(Some(a))));
    assert!(!Value::Maybe(Some(a)).same(&Value::Maybe(Some(b))));
}

#[test]
fn deep_clone_copies_every_part_into_new_slots() {
    let mut m = Memory::new();
    let one = put(&mut m, Value::Int(1));
    let two = put(&mut m, s("two"));
    let inner = put(&mut m, Value::Array(vec![one, two]));
    let outer = put(&mut m, Value::Array(vec![inner, one]));
    let before = m.len();
    let copy = m.key_deep_clone(outer).unwrap();
    // inner, its two elements, the second element, and the array itself
    assert_eq!(m.len(), before + 5);
    assert!(copy != outer);
    let keys = match &m.get(copy).value {
        Value::Array(k) => k.clone(),
        other => panic!("{:?}", other),
    };
    assert_eq!(keys.len(), 2);
    for k in keys.iter() {
        assert!(*k != inner && *k != one && *k != two && *k != outer);
    }
    let inner_copy = match &m.get(keys[0]).value {
        Value::Array(k) => k.clone(),
        other => panic!("{:?}", other),
    };
    assert!(inner_copy[0] != one && inner_copy[1] != two);
    assert!(matches!(m.get(inner_copy[0]).value, Value::Int(1)));
    assert!(matches!(&m.get(inner_copy[1]).value, Value::String(t) if t == "two"));
    assert!(matches!(m.get(keys[1]).value, Value::Int(1)));
    // the source is as it was
    assert!(matches!(&m.get(outer).value, Value::Array(k) if *k == vec![inner, one]));
    assert_eq!(m.get(copy).def_area, m.get(outer).def_area);
}

#[test]
fn deep_clone_of_a_value_stores_only_its_parts() {
    let mut m = Memory::new();
    let one = put(&mut m, Value::Int(1));
    let v = m.deep_clone(one).unwrap();
    assert!(matches!(v.value, Value::Int(1)));
    assert_eq!(m.len(), 1);
    let arr = put(&mut m, Value::Array(vec![one]));
    let w = m.deep_clone(arr).unwrap();
    assert_eq!(m.len(), 3);
    assert!(matches!(&w.value, Value::Array(k) if k.len() == 1 && k[0] != one));
    let x = m.deep_clone_value(&Value::Maybe(Some(one))).unwrap();
    assert!(matches!(x, Value::Maybe(Some(k)) if k != one));
    assert_eq!(m.len(), 4);
}

#[test]
fn deep_clone_keeps_names_and_shares_captures() {
    let mut m = Memory::new();
    let def = put(&mut m, Value::Int(7));
    let cap = put(&mut m, Value::Int(8));
    let mac = Value::Macro(Macro {
        func_id: 3,
        args: vec![
            MacroArg { name: "a".into(), area: area(), pattern: None, default: None },
            MacroArg {
                name: "b".into(),
                area: area(),
                pattern: Some((Pattern::Type(ValueType::Int), area())),
                default: Some(def),
            },
        ],
        capture: vec![cap],
        ret_type: (Pattern::Any, area()),
    });
    let k = put(&mut m, mac);
    let c = m.key_deep_clone(k).unwrap();
    match &m.get(c).value {
        Value::Macro(mm) => {
            assert_eq!(mm.func_id, 3);
            assert_eq!(mm.args.len(), 2);
            assert_eq!(mm.args[0].name, "a");
            assert!(mm.args[0].default.is_none());
            assert_eq!(mm.args[1].name, "b");
            let d = mm.args[1].default.unwrap();
            assert!(d != def);
            assert!(matches!(m.get(d).value, Value::Int(7)));
            assert_eq!(mm.capture, vec![cap]);
            assert!(mm.args[1].get_pattern().same(&Pattern::Type(ValueType::Int)));
            assert!(mm.args[0].get_pattern().same(&Pattern::Any));
        }
        other => panic!("{:?}", other),
    }
    let d = put(&mut m, Value::Dict(vec![("x".to_string(), def), ("y".to_string(), cap)]));
    let dc = m.key_deep_clone(d).unwrap();
    match &m.get(dc).value {
        Value::Dict(f) => {
            assert_eq!(f.len(), 2);
            assert_eq!(f[0].0, "x");
            assert_eq!(f[1].0, "y");
            assert!(f[0].1 != def && f[1].1 != cap);
        }
        other => panic!("{:?}", other),
    }
}

#[test]
fn deep_clone_of_a_deep_clone_is_alike() {
    let mut m = Memory::new();
    let one = put(&mut m, Value::Int(1));
    let text = put(&mut m, s("t"));
    let maybe = put(&mut m, Value::Maybe(Some(text)));
    let arr = put(&mut m, Value::Array(vec![one, maybe]));
    let c1 = m.key_deep_clone(arr).unwrap();
    let c2 = m.key_deep_clone(c1).unwrap();
    assert!(equality(&m.get(c1).value, &m.get(c2).value, &m));
    assert!(equality(&m.get(arr).value, &m.get(c2).value, &m));
    assert_eq!(m.get(c1).value.to_str(&m, &Ieee), m.get(c2).value.to_str(&m, &Ieee));
    assert_eq!(m.get(c2).value.to_str(&m, &Ieee), "[1, t?]");
}

#[test]
fn clone_keys_copies_in_order() {
    let mut m = Memory::new();
    let a = put(&mut m, Value::Int(1));
    let b = put(&mut m, Value::Int(2));
    let out = m.clone_keys(&vec![a, b, a]).unwrap();
    assert_eq!(out.len(), 3);
    assert!(matches!(m.get(out[0]).value, Value::Int(1)));
    assert!(matches!(m.get(out[1]).value, Value::Int(2)));
    assert!(matches!(m.get(out[2]).value, Value::Int(1)));
    assert!(out[0] != out[2] && out[0] != a);
}

#[test]
fn assign_puts_a_deep_copy_into_the_target() {
    let mut m = Memory::new();
    let one = put(&mut m, Value::Int(1));
    let arr = put(&mut m, Value::Array(vec![one]));
    let target = put(&mut m, Value::Empty);
    let parent = put(&mut m, Value::Array(vec![target]));
    assert!(m.assign(target, arr));
    match &m.get(target).value {
        Value::Array(k) => {
            assert_eq!(k.len(), 1);
            assert!(k[0] != one);
            assert!(matches!(m.get(k[0]).value, Value::Int(1)));
        }
        other => panic!("{:?}", other),
    }
    assert!(matches!(&m.get(arr).value, Value::Array(k) if *k == vec![one]));
    assert_eq!(m.get(parent).value.to_str(&m, &Ieee), "[[1]]");
    // a slot can take a copy of what holds it
    assert!(m.assign(target, parent));
    assert_eq!(m.get(target).value.to_str(&m, &Ieee), "[[1]]");
    assert_eq!(m.get(parent).value.to_str(&m, &Ieee), "[[[1]]]");
}

#[test]
fn equality_compares_by_value() {
    let mut m = Memory::new();
    let a1 = put(&mut m, Value::Int(1));
    let a2 = put(&mut m, fl(1.0));
    let b1 = put(&mut m, Value::Int(2));
    let arr1 = Value::Array(vec![a1, b1]);
    let arr2 = Value::Array(vec![a2, b1]);
    let arr3 = Value::Array(vec![a1]);
    let arr4 = Value::Array(vec![b1, a1]);
    assert!(equality(&Value::Int(1), &fl(1.0), &m));
    assert!(equality(&fl(1.0), &Value::Int(1), &m));
    assert!(!equality(&Value::Int(1), &fl(1.5), &m));
    assert!(equality(&fl(0.0), &fl(-0.0), &m));
    // a value equals itself, a NaN too; two NaNs of different bits differ
    assert!(equality(&fl(f64::NAN), &fl(f64::NAN), &m));
    assert!(!equality(
        &Value::Float(0x7FF8_0000_0000_0000),
        &Value::Float(0x7FF8_0000_0000_0001),
        &m
    ));
    assert!(!equality(&fl(f64::NAN), &fl(1.0), &m));
    assert!(equality(&arr1, &arr2, &m));
    assert!(!equality(&arr1, &arr3, &m));
    assert!(!equality(&arr1, &arr4, &m));
    assert!(equality(&Value::Maybe(None), &Value::Maybe(None), &m));
    assert!(equality(&Value::Maybe(Some(a1)), &Value::Maybe(Some(a2)), &m));
    assert!(!equality(&Value::Maybe(Some(a1)), &Value::Maybe(None), &m));
    assert!(!equality(&Value::Maybe(Some(a1)), &Value::Maybe(Some(b1)), &m));
    assert!(equality(&s("x"), &s("x"), &m));
    assert!(!equality(&s("x"), &s("y"), &m));
    assert!(!equality(&s("1"), &Value::Int(1), &m));
    assert!(equality(&Value::Empty, &Value::Empty, &m));
    assert!(equality(&Value::Group(Id::Arbitrary(1)), &Value::Group(Id::Arbitrary(1)), &m));
    assert!(!equality(&Value::Group(Id::Arbitrary(1)), &Value::Group(Id::Specific(1)), &m));
    assert!(!equality(&Value::Group(Id::Specific(1)), &Value::Color(Id::Specific(1)), &m));
    assert!(equality(
        &Value::TypeIndicator(ValueType::Int),
        &Value::TypeIndicator(ValueType::Int),
        &m
    ));
}

#[test]
fn dictionaries_are_equal_whatever_the_order_of_their_fields() {
    let mut m = Memory::new();
    let one = put(&mut m, Value::Int(1));
    let two = put(&mut m, Value::Int(2));
    let uno = put(&mut m, fl(1.0));
    let d1 = Value::Dict(vec![("a".to_string(), one), ("b".to_string(), two)]);
    let d2 = Value::Dict(vec![("b".to_string(), two), ("a".to_string(), uno)]);
    let d3 = Value::Dict(vec![("a".to_string(), one), ("c".to_string(), two)]);
    let d4 = Value::Dict(vec![("a".to_string(), one)]);
    let d5 = Value::Dict(vec![("a".to_string(), two), ("b".to_string(), one)]);
    assert!(equality(&d1, &d2, &m));
    assert!(equality(&d2, &d1, &m));
    assert!(!equality(&d1, &d3, &m));
    assert!(!equality(&d3, &d1, &m));
    assert!(!equality(&d1, &d4, &m));
    assert!(!equality(&d1, &d5, &m));
}

#[test]
fn equality_is_symmetric_and_reflexive_on_samples() {
    let mut m = Memory::new();
    let one = put(&mut m, Value::Int(1));
    let uno = put(&mut m, fl(1.0));
    let t = put(&mut m, s("t"));
    let arr = put(&mut m, Value::Array(vec![one, t]));
    let samples = vec![
        Value::Int(1),
        fl(1.0),
        fl(2.5),
        s("t"),
        Value::Bool(true),
        Value::Empty,
        Value::Array(vec![one, t]),
        Value::Array(vec![uno, t]),
        Value::Array(vec![arr]),
        Value::Dict(vec![("a".to_string(), one)]),
        Value::Dict(vec![("a".to_string(), uno)]),
        Value::Maybe(None),
        Value::Maybe(Some(arr)),
        Value::Pattern(Pattern::Any),
        Value::TriggerFunc { start_group: Id::Arbitrary(0) },
    ];
    for a in samples.iter() {
        assert!(equality(a, a, &m), "{:?}", a);
        for b in samples.iter() {
            assert_eq!(equality(a, b, &m), equality(b, a, &m), "{:?} {:?}", a, b);
        }
    }
}

#[test]
fn value_text_shows_every_kind() {
    let mut m = Memory::new();
    let one = put(&mut m, Value::Int(-1));
    let t = put(&mut m, s("t"));
    let arr = put(&mut m, Value::Array(vec![one, t]));
    let x = put(&mut m, fl(1.5));
    let text = |v: &Value| v.to_str(&m, &Ieee);
    assert_eq!(text(&Value::Int(42)), "42");
    assert_eq!(text(&fl(1.5)), "1.5");
    assert_eq!(text(&fl(2.0)), "2");
    assert_eq!(text(&s("hi")), "hi");
    assert_eq!(text(&Value::Bool(true)), "true");
    assert_eq!(text(&Value::Bool(false)), "false");
    assert_eq!(text(&Value::Empty), "()");
    assert_eq!(text(&Value::Array(vec![])), "[]");
    assert_eq!(text(&Value::Array(vec![one])), "[-1]");
    assert_eq!(text(&Value::Array(vec![arr, x])), "[[-1, t], 1.5]");
    assert_eq!(text(&Value::Dict(vec![])), "{}");
    assert_eq!(
        text(&Value::Dict(vec![("b".to_string(), one), ("a".to_string(), arr)])),
        "{b: -1, a: [-1, t]}"
    );
    assert_eq!(text(&Value::Maybe(None)), "?");
    assert_eq!(text(&Value::Maybe(Some(t))), "t?");
    assert_eq!(text(&Value::TypeIndicator(ValueType::Dict)), "@dictionary");
    assert_eq!(text(&Value::Pattern(Pattern::Any)), "_");
    assert_eq!(text(&Value::Group(Id::Specific(5))), "5g");
    assert_eq!(text(&Value::Group(Id::Arbitrary(5))), "?g");
    assert_eq!(text(&Value::Color(Id::Specific(5))), "5c");
    assert_eq!(text(&Value::Block(Id::Specific(5))), "5b");
    assert_eq!(text(&Value::Item(Id::Arbitrary(5))), "?i");
    assert_eq!(text(&Value::TriggerFunc { start_group: Id::Arbitrary(1) }), "!{...}");
    let mac = Value::Macro(Macro {
        func_id: 0,
        args: vec![
            MacroArg { name: "a".into(), area: area(), pattern: None, default: None },
            MacroArg {
                name: "b".into(),
                area: area(),
                pattern: Some((Pattern::Type(ValueType::Int), area())),
                default: Some(one),
            },
            MacroArg { name: "c".into(), area: area(), pattern: None, default: Some(arr) },
        ],
        capture: vec![],
        ret_type: (Pattern::Any, area()),
    });
    assert_eq!(text(&mac), "(a, b: @int = -1, c = [-1, t]) -> _ {...}");
    let none = Value::Macro(Macro {
        func_id: 0,
        args: vec![],
        capture: vec![],
        ret_type: (Pattern::Type(ValueType::Bool), area()),
    });
    assert_eq!(text(&none), "() -> @bool {...}");
    let obj = Value::Object(GdObj::new(ObjectMode::Trigger));
    assert!(!text(&obj).is_empty());
}

#[test]
fn plus_adds_numbers_and_joins_texts_and_arrays() {
    let mut m = Memory::new();
    let a = put(&mut m, Value::Int(1));
    let b = put(&mut m, Value::Int(2));
    assert_eq!(int_of(plus(&st(Value::Int(2)), &st(Value::Int(3)), call_area(), &Ieee)), 5);
    assert_eq!(
        int_of(plus(&st(Value::Int(i64::MAX)), &st(Value::Int(1)), call_area(), &Ieee)),
        i64::MIN
    );
    assert_eq!(float_of(plus(&st(Value::Int(2)), &st(fl(0.5)), call_area(), &Ieee)), 2.5);
    assert_eq!(float_of(plus(&st(fl(0.5)), &st(Value::Int(2)), call_area(), &Ieee)), 2.5);
    assert_eq!(float_of(plus(&st(fl(0.25)), &st(fl(0.5)), call_area(), &Ieee)), 0.75);
    assert_eq!(text_of(plus(&st(s("ab")), &st(s("cd")), call_area(), &Ieee)), "abcd");
    match plus(&st(Value::Array(vec![a])), &st(Value::Array(vec![b, a])), call_area(), &Ieee) {
        Ok(StoredValue { value: Value::Array(k), .. }) => assert_eq!(k, vec![a, b, a]),
        other => panic!("{:?}", other),
    }
    assert_eq!(invalid_op(plus(&st(s("ab")), &st(Value::Int(1)), call_area(), &Ieee)), "+");
    match plus(&st(Value::Bool(true)), &st(Value::Int(1)), call_area(), &Ieee) {
        Err(RuntimeError::InvalidOperands { a, b, op, area }) => {
            assert!(matches!(a.value, Value::Bool(true)));
            assert!(matches!(b.value, Value::Int(1)));
            assert_eq!(op, "+");
            assert_eq!(area, call_area());
        }
        other => panic!("{:?}", other),
    }
}

#[test]
fn minus_subtracts_numbers() {
    assert_eq!(int_of(minus(&st(Value::Int(2)), &st(Value::Int(3)), call_area(), &Ieee)), -1);
    assert_eq!(
        int_of(minus(&st(Value::Int(i64::MIN)), &st(Value::Int(1)), call_area(), &Ieee)),
        i64::MAX
    );
    assert_eq!(float_of(minus(&st(Value::Int(2)), &st(fl(0.5)), call_area(), &Ieee)), 1.5);
    assert_eq!(float_of(minus(&st(fl(0.5)), &st(Value::Int(2)), call_area(), &Ieee)), -1.5);
    assert_eq!(float_of(minus(&st(fl(0.5)), &st(fl(0.25)), call_area(), &Ieee)), 0.25);
    assert_eq!(invalid_op(minus(&st(s("a")), &st(s("b")), call_area(), &Ieee)), "-");
}

#[test]
fn mult_multiplies_numbers_and_repeats_texts() {
    assert_eq!(int_of(mult(&st(Value::Int(6)), &st(Value::Int(7)), call_area(), &Ieee)), 42);
    assert_eq!(
        int_of(mult(&st(Value::Int(i64::MAX)), &st(Value::Int(2)), call_area(), &Ieee)),
        -2
    );
    assert_eq!(float_of(mult(&st(Value::Int(3)), &st(fl(0.5)), call_area(), &Ieee)), 1.5);
    assert_eq!(float_of(mult(&st(fl(0.5)), &st(Value::Int(3)), call_area(), &Ieee)), 1.5);
    assert_eq!(float_of(mult(&st(fl(0.5)), &st(fl(0.5)), call_area(), &Ieee)), 0.25);
    assert_eq!(text_of(mult(&st(Value::Int(3)), &st(s("ab")), call_area(), &Ieee)), "ababab");
    assert_eq!(text_of(mult(&st(s("ab")), &st(Value::Int(2)), call_area(), &Ieee)), "abab");
    assert_eq!(invalid_op(mult(&st(s("a")), &st(s("b")), call_area(), &Ieee)), "*");
    assert_eq!(invalid_op(mult(&st(s("a")), &st(fl(2.0)), call_area(), &Ieee)), "*");
}

#[test]
fn no_copies_of_a_text_are_the_empty_text() {
    for text in ["", "a", "abc"] {
        assert_eq!(text_of(mult(&st(Value::Int(0)), &st(s(text)), call_area(), &Ieee)), "");
        assert_eq!(repeat(&text.to_string(), 0), "");
    }
}

#[test]
fn one_more_copy_is_the_text_and_the_copies_before() {
    for text in ["", "a", "abc"] {
        for n in 1..6 {
            let whole = repeat(&text.to_string(), n);
            let rest = repeat(&text.to_string(), n - 1);
            assert_eq!(whole, format!("{}{}", text, rest));
        }
    }
}

#[test]
fn negative_repeat_counts_give_the_empty_text() {
    assert_eq!(text_of(mult(&st(Value::Int(-1)), &st(s("ab")), call_area(), &Ieee)), "");
    assert_eq!(text_of(mult(&st(s("ab")), &st(Value::Int(-5)), call_area(), &Ieee)), "");
    assert_eq!(repeat(&"ab".to_string(), i64::MIN), "");
}

#[test]
fn div_truncates_and_refuses_zero() {
    assert_eq!(int_of(div(&st(Value::Int(7)), &st(Value::Int(2)), call_area(), &Ieee)), 3);
    assert_eq!(int_of(div(&st(Value::Int(-7)), &st(Value::Int(2)), call_area(), &Ieee)), -3);
    assert_eq!(int_of(div(&st(Value::Int(7)), &st(Value::Int(-2)), call_area(), &Ieee)), -3);
    assert_eq!(int_of(div(&st(Value::Int(-7)), &st(Value::Int(-2)), call_area(), &Ieee)), 3);
    assert_eq!(invalid_op(div(&st(Value::Int(7)), &st(Value::Int(0)), call_area(), &Ieee)), "/");
    assert_eq!(invalid_op(div(&st(Value::Int(0)), &st(Value::Int(0)), call_area(), &Ieee)), "/");
    assert_eq!(
        invalid_op(div(&st(Value::Int(i64::MIN)), &st(Value::Int(-1)), call_area(), &Ieee)),
        "/"
    );
    assert_eq!(float_of(div(&st(Value::Int(7)), &st(fl(2.0)), call_area(), &Ieee)), 3.5);
    assert_eq!(float_of(div(&st(fl(7.0)), &st(Value::Int(2)), call_area(), &Ieee)), 3.5);
    assert_eq!(
        float_of(div(&st(fl(1.0)), &st(fl(0.0)), call_area(), &Ieee)),
        f64::INFINITY
    );
    assert_eq!(invalid_op(div(&st(s("a")), &st(Value::Int(1)), call_area(), &Ieee)), "/");
}

#[test]
fn modulo_keeps_the_sign_of_the_dividend_and_refuses_zero() {
    assert_eq!(int_of(modulo(&st(Value::Int(7)), &st(Value::Int(2)), call_area(), &Ieee)), 1);
    assert_eq!(int_of(modulo(&st(Value::Int(-7)), &st(Value::Int(2)), call_area(), &Ieee)), -1);
    assert_eq!(int_of(modulo(&st(Value::Int(7)), &st(Value::Int(-2)), call_area(), &Ieee)), 1);
    assert_eq!(invalid_op(modulo(&st(Value::Int(7)), &st(Value::Int(0)), call_area(), &Ieee)), "%");
    assert_eq!(
        invalid_op(modulo(&st(Value::Int(i64::MIN)), &st(Value::Int(-1)), call_area(), &Ieee)),
        "%"
    );
    assert_eq!(float_of(modulo(&st(fl(7.5)), &st(Value::Int(2)), call_area(), &Ieee)), 1.5);
    assert_eq!(float_of(modulo(&st(Value::Int(7)), &st(fl(2.5)), call_area(), &Ieee)), 2.0);
    assert_eq!(float_of(modulo(&st(fl(7.5)), &st(fl(2.0)), call_area(), &Ieee)), 1.5);
}

#[test]
fn pow_goes_through_the_float_unit() {
    assert_eq!(int_of(pow(&st(Value::Int(2)), &st(Value::Int(10)), call_area(), &Ieee)), 1024);
    assert_eq!(int_of(pow(&st(Value::Int(2)), &st(Value::Int(-1)), call_area(), &Ieee)), 0);
    assert_eq!(float_of(pow(&st(Value::Int(2)), &st(fl(0.5)), call_area(), &Ieee)), 2f64.powf(0.5));
    assert_eq!(float_of(pow(&st(fl(1.5)), &st(Value::Int(2)), call_area(), &Ieee)), 2.25);
    assert_eq!(float_of(pow(&st(fl(4.0)), &st(fl(0.5)), call_area(), &Ieee)), 2.0);
    assert_eq!(invalid_op(pow(&st(s("a")), &st(Value::Int(1)), call_area(), &Ieee)), "^");
}

#[test]
fn comparisons_order_numbers() {
    let two = || st(Value::Int(2));
    let three = || st(Value::Int(3));
    assert!(bool_of(greater(&three(), &two(), call_area(), &Ieee)));
    assert!(!bool_of(greater(&two(), &two(), call_area(), &Ieee)));
    assert!(bool_of(greater_eq(&two(), &two(), call_area(), &Ieee)));
    assert!(!bool_of(greater_eq(&two(), &three(), call_area(), &Ieee)));
    assert!(bool_of(lesser(&two(), &three(), call_area(), &Ieee)));
    assert!(!bool_of(lesser(&two(), &two(), call_area(), &Ieee)));
    assert!(bool_of(lesser_eq(&two(), &two(), call_area(), &Ieee)));
    assert!(!bool_of(lesser_eq(&three(), &two(), call_area(), &Ieee)));
    assert!(bool_of(greater(&st(fl(2.5)), &two(), call_area(), &Ieee)));
    assert!(bool_of(lesser(&two(), &st(fl(2.5)), call_area(), &Ieee)));
    assert!(bool_of(lesser_eq(&st(fl(2.0)), &two(), call_area(), &Ieee)));
    assert!(bool_of(greater_eq(&st(fl(2.5)), &st(fl(2.5)), call_area(), &Ieee)));
    assert!(!bool_of(greater(&st(fl(f64::NAN)), &st(fl(1.0)), call_area(), &Ieee)));
    assert!(!bool_of(lesser_eq(&st(fl(f64::NAN)), &st(fl(f64::NAN)), call_area(), &Ieee)));
    assert_eq!(invalid_op(greater(&st(s("a")), &two(), call_area(), &Ieee)), ">");
    assert_eq!(invalid_op(greater_eq(&st(s("a")), &two(), call_area(), &Ieee)), ">=");
    assert_eq!(invalid_op(lesser(&st(s("a")), &two(), call_area(), &Ieee)), "<");
    assert_eq!(invalid_op(lesser_eq(&st(s("a")), &st(s("b")), call_area(), &Ieee)), "<=");
    assert!(float_compare(Operator::Greater, 2.5f64.to_bits(), 1.0f64.to_bits()));
    assert!(!float_compare(Operator::Lesser, 2.5f64.to_bits(), 1.0f64.to_bits()));
    assert!(bool_of(binary(Operator::Lesser, &two(), &three(), call_area(), &Ieee)));
}

#[test]
fn unary_operators_negate_and_invert() {
    assert_eq!(int_of(unary_negate(&st(Value::Int(5)), call_area())), -5);
    assert_eq!(int_of(unary_negate(&st(Value::Int(i64::MIN)), call_area())), i64::MIN);
    assert_eq!(float_of(unary_negate(&st(fl(1.5)), call_area())), -1.5);
    assert!(!bool_of(unary_not(&st(Value::Bool(true)), call_area())));
    assert!(bool_of(unary_not(&st(Value::Bool(false)), call_area())));
    match unary_negate(&st(s("a")), call_area()) {
        Err(RuntimeError::InvalidUnaryOperand { a, op, area }) => {
            assert!(matches!(&a.value, Value::String(t) if t == "a"));
            assert_eq!(op, "-");
            assert_eq!(area, call_area());
        }
        other => panic!("{:?}", other),
    }
    match unary_not(&st(Value::Int(1)), call_area()) {
        Err(RuntimeError::InvalidUnaryOperand { a, op, area }) => {
            assert!(matches!(a.value, Value::Int(1)));
            assert_eq!(op, "!");
            assert_eq!(area, call_area());
        }
        other => panic!("{:?}", other),
    }
}

fn int_macro() -> Value {
    Value::Macro(Macro {
        func_id: 0,
        args: vec![
            MacroArg {
                name: "a".into(),
                area: area(),
                pattern: Some((Pattern::Type(ValueType::Int), area())),
                default: None,
            },
            MacroArg { name: "b".into(), area: area(), pattern: None, default: None },
        ],
        capture: vec![],
        ret_type: (Pattern::Type(ValueType::Bool), area()),
    })
}

#[test]
fn patterns_match_by_tag_and_by_shape() {
    assert!(matches_pat(&Value::Int(1), &Pattern::Any));
    assert!(matches_pat(&Value::Int(1), &Pattern::Type(ValueType::Int)));
    assert!(!matches_pat(&fl(1.0), &Pattern::Type(ValueType::Int)));
    let shape = |args: Vec<Pattern>, ret: Pattern| Pattern::Macro { args, ret: Box::new(ret) };
    let int = || Pattern::Type(ValueType::Int);
    let boolean = || Pattern::Type(ValueType::Bool);
    assert!(matches_pat(&int_macro(), &shape(vec![int(), Pattern::Any], boolean())));
    assert!(!matches_pat(&int_macro(), &shape(vec![int(), Pattern::Any], int())));
    assert!(!matches_pat(&int_macro(), &shape(vec![Pattern::Any, Pattern::Any], boolean())));
    assert!(!matches_pat(&int_macro(), &shape(vec![int(), int()], boolean())));
    // a macro matches only a pattern that lists as many patterns as it has parameters
    assert!(!matches_pat(&int_macro(), &shape(vec![int()], boolean())));
    assert!(!matches_pat(&int_macro(), &shape(vec![], boolean())));
    assert!(!matches_pat(&int_macro(), &shape(vec![int(), Pattern::Any, int()], boolean())));
    assert!(!matches_pat(&Value::Int(1), &shape(vec![], boolean())));
    assert!(matches_pat(&int_macro(), &Pattern::Type(ValueType::Macro)));
}

#[test]
fn is_takes_a_tag_or_a_pattern() {
    let tag = st(Value::TypeIndicator(ValueType::Int));
    assert!(bool_of(is_op(&st(Value::Int(1)), &tag, call_area())));
    assert!(!bool_of(is_op(&st(fl(1.0)), &tag, call_area())));
    assert!(bool_of(is_op(&st(fl(1.0)), &st(Value::Pattern(Pattern::Any)), call_area())));
    match is_op(&st(Value::Int(1)), &st(Value::Int(2)), call_area()) {
        Err(RuntimeError::TypeMismatch { v, expected, area }) => {
            assert!(matches!(v.value, Value::Int(2)));
            assert_eq!(expected, "@type_indicator or @pattern");
            assert_eq!(area, call_area());
        }
        other => panic!("{:?}", other),
    }
}

#[test]
fn only_truth_values_convert_to_bool() {
    assert_eq!(to_bool(&st(Value::Bool(true))).unwrap(), true);
    assert_eq!(to_bool(&st(Value::Bool(false))).unwrap(), false);
    match to_bool(&st(Value::Int(1))) {
        Err(RuntimeError::CannotConvert { a, to }) => {
            assert!(matches!(a.value, Value::Int(1)));
            assert_eq!(to, ValueType::Bool);
        }
        other => panic!("{:?}", other),
    }
}

#[test]
fn tags_and_patterns_convert_to_patterns() {
    assert!(to_pat(&st(Value::TypeIndicator(ValueType::Int)))
        .unwrap()
        .same(&Pattern::Type(ValueType::Int)));
    assert!(to_pat(&st(Value::Pattern(Pattern::Any))).unwrap().same(&Pattern::Any));
    match to_pat(&st(s("x"))) {
        Err(RuntimeError::CannotConvert { a, to }) => {
            assert!(matches!(&a.value, Value::String(t) if t == "x"));
            assert_eq!(to, ValueType::Pattern);
        }
        other => panic!("{:?}", other),
    }
}

#[test]
fn walks_start_at_the_first_element() {
    let mut m = Memory::new();
    let a = put(&mut m, Value::Int(1));
    match to_iter(&st(Value::Array(vec![a])), call_area()).unwrap() {
        ValueIter::Array(k, 0) => assert_eq!(k, vec![a]),
        other => panic!("{:?}", other),
    }
    match to_iter(&st(s("ab")), call_area()).unwrap() {
        ValueIter::String(t, ar, 0) => {
            assert_eq!(t, "ab");
            assert_eq!(ar, area());
        }
        other => panic!("{:?}", other),
    }
    match to_iter(&st(Value::Dict(vec![("x".to_string(), a)])), call_area()).unwrap() {
        ValueIter::Dict { dict_area, for_area, idx, elems } => {
            assert_eq!(dict_area, area());
            assert_eq!(for_area, call_area());
            assert_eq!(idx, 0);
            assert_eq!(elems, vec![("x".to_string(), a)]);
        }
        other => panic!("{:?}", other),
    }
    match to_iter(&st(Value::Int(1)), call_area()) {
        Err(RuntimeError::CannotIterate { a }) => assert!(matches!(a.value, Value::Int(1))),
        other => panic!("{:?}", other),
    }
}

#[test]
fn walks_give_deep_copies_in_order() {
    let mut g = Globals::new();
    let a = put(&mut g.memory, Value::Int(10));
    let b = put(&mut g.memory, Value::Int(20));
    let mut it = to_iter(&st(Value::Array(vec![a, b])), call_area()).unwrap();
    assert!(matches!(it.next(&mut g).unwrap().unwrap().value, Value::Int(10)));
    assert!(matches!(it.next(&mut g).unwrap().unwrap().value, Value::Int(20)));
    assert!(matches!(&it, ValueIter::Array(_, 2)));
    assert!(it.next(&mut g).unwrap().is_none());
    // the walk goes one place on at its end too
    assert!(matches!(&it, ValueIter::Array(_, 3)));
    assert!(it.next(&mut g).unwrap().is_none());
    assert!(matches!(&it, ValueIter::Array(_, 4)));

    let mut it = to_iter(&st(s("hé")), call_area()).unwrap();
    assert!(matches!(&it.next(&mut g).unwrap().unwrap().value, Value::String(t) if t == "h"));
    assert!(matches!(&it.next(&mut g).unwrap().unwrap().value, Value::String(t) if t == "é"));
    assert!(it.next(&mut g).unwrap().is_none());

    let d = Value::Dict(vec![("x".to_string(), a), ("y".to_string(), b)]);
    let mut it = to_iter(&st(d), call_area()).unwrap();
    let first = it.next(&mut g).unwrap().unwrap();
    assert_eq!(first.def_area, call_area());
    match &first.value {
        Value::Array(pair) => {
            assert_eq!(pair.len(), 2);
            assert!(matches!(&g.memory.get(pair[0]).value, Value::String(t) if t == "x"));
            assert_eq!(g.memory.get(pair[0]).def_area, area());
            assert!(pair[1] != a);
            assert!(matches!(g.memory.get(pair[1]).value, Value::Int(10)));
        }
        other => panic!("{:?}", other),
    }
    let second = it.next(&mut g).unwrap().unwrap();
    assert_eq!(second.value.to_str(&g.memory, &Ieee), "[y, 20]");
    assert!(it.next(&mut g).unwrap().is_none());
}

#[test]
fn values_copy_and_compare() {
    let mut m = Memory::new();
    let a = put(&mut m, Value::Int(1));
    let b = put(&mut m, Value::Int(2));
    let samples = vec![
        Value::Int(1),
        fl(1.0),
        s("x"),
        Value::Bool(true),
        Value::Empty,
        Value::Array(vec![a, b]),
        Value::Dict(vec![("n".to_string(), a)]),
        Value::Maybe(Some(a)),
        Value::Maybe(None),
        Value::TypeIndicator(ValueType::Int),
        Value::Pattern(Pattern::Any),
        Value::Group(Id::Specific(1)),
        Value::Color(Id::Specific(1)),
        Value::Block(Id::Specific(1)),
        Value::Item(Id::Specific(1)),
        Value::TriggerFunc { start_group: Id::Arbitrary(2) },
        int_macro(),
        Value::Object(GdObj::new(ObjectMode::Object)),
    ];
    let types = vec![
        ValueType::Int,
        ValueType::Float,
        ValueType::String,
        ValueType::Bool,
        ValueType::Empty,
        ValueType::Array,
        ValueType::Dict,
        ValueType::Maybe,
        ValueType::Maybe,
        ValueType::TypeIndicator,
        ValueType::Pattern,
        ValueType::Group,
        ValueType::Color,
        ValueType::Block,
        ValueType::Item,
        ValueType::TriggerFunc,
        ValueType::Macro,
        ValueType::Object,
    ];
    for (i, v) in samples.iter().enumerate() {
        assert_eq!(v.get_type(), types[i]);
        assert!(v.same(&v.copy()), "{:?}", v);
        for (j, w) in samples.iter().enumerate() {
            assert_eq!(v.same(w), i == j, "{:?} {:?}", v, w);
        }
    }
    assert!(!Value::Array(vec![a, b]).same(&Value::Array(vec![b, a])));
    assert!(!Value::Dict(vec![("n".to_string(), a)]).same(&Value::Dict(vec![("n".to_string(), b)])));
    assert!(!Value::Dict(vec![("n".to_string(), a)]).same(&Value::Dict(vec![("m".to_string(), a)])));
}

#[test]
fn parts_are_listed_and_replaced_in_order() {
    let mut m = Memory::new();
    let a = put(&mut m, Value::Int(1));
    let b = put(&mut m, Value::Int(2));
    let c = put(&mut m, Value::Int(3));
    assert_eq!(Value::Int(1).part_keys(), vec![]);
    assert_eq!(Value::Array(vec![a, b]).part_keys(), vec![a, b]);
    assert_eq!(Value::Maybe(Some(a)).part_keys(), vec![a]);
    assert_eq!(Value::Maybe(None).part_keys(), vec![]);
    let d = Value::Dict(vec![("x".to_string(), a), ("y".to_string(), b)]);
    assert_eq!(d.part_keys(), vec![a, b]);
    assert!(d
        .with_parts(&vec![b, c])
        .same(&Value::Dict(vec![("x".to_string(), b), ("y".to_string(), c)])));
    assert!(Value::Array(vec![a, b]).with_parts(&vec![c, a]).same(&Value::Array(vec![c, a])));
    assert!(Value::Maybe(Some(a)).with_parts(&vec![c]).same(&Value::Maybe(Some(c))));
    let mac = Macro {
        func_id: 1,
        args: vec![
            MacroArg { name: "p".into(), area: area(), pattern: None, default: Some(a) },
            MacroArg { name: "q".into(), area: area(), pattern: None, default: None },
            MacroArg { name: "r".into(), area: area(), pattern: None, default: Some(b) },
        ],
        capture: vec![c],
        ret_type: (Pattern::Any, area()),
    };
    let v = Value::Macro(mac);
    assert_eq!(v.part_keys(), vec![a, b]);
    match v.with_parts(&vec![b, c]) {
        Value::Macro(mm) => {
            assert_eq!(mm.args[0].default, Some(b));
            assert_eq!(mm.args[1].default, None);
            assert_eq!(mm.args[2].default, Some(c));
            assert_eq!(mm.capture, vec![c]);
            assert_eq!(mm.args[2].name, "r");
        }
        other => panic!("{:?}", other),
    }
}

#[test]
fn object_parameters_stay_sorted() {
    let mut o = GdObj::new(ObjectMode::Object);
    o.insert(57, ObjParam::Bool(true));
    o.insert(1, ObjParam::Number(1.0f64.to_bits()));
    o.insert(51, ObjParam::Text("t".to_string()));
    o.insert(1, ObjParam::Number(2.0f64.to_bits()));
    o.insert(60000, ObjParam::Epsilon);
    let keys: Vec<u16> = o.params.iter().map(|p| p.0).collect();
    assert_eq!(keys, vec![1, 51, 57, 60000]);
    assert!(o.params[0].1.same(&ObjParam::Number(2.0f64.to_bits())));
    assert_eq!(o.find(51), Some(1));
    assert_eq!(o.find(52), None);
    assert!(o.same(&o.copy()));
    let mut p = o.copy();
    p.insert(51, ObjParam::Text("u".to_string()));
    assert!(!o.same(&p));
}

#[test]
fn values_clone_deeply_through_the_shared_state() {
    let mut g = Globals::new();
    let one = put(&mut g.memory, Value::Int(1));
    let v = Value::Array(vec![one]);
    let w = v.deep_clone(&mut g).unwrap();
    assert!(matches!(&w, Value::Array(k) if k.len() == 1 && k[0] != one));
    assert_eq!(g.memory.len(), 2);
    let stored = Value::Maybe(Some(one)).into_stored(call_area());
    let copy = stored.deep_clone(&mut g).unwrap();
    assert_eq!(copy.def_area, call_area());
    assert!(matches!(copy.value, Value::Maybe(Some(k)) if k != one));
    assert!(matches!(Value::Int(3).deep_clone(&mut g), Some(Value::Int(3))));
    assert_eq!(g.memory.len(), 3);
}

#[test]
fn a_copy_of_a_value_without_parts_leaves_the_arena_as_it_is() {
    let mut g = Globals::new();
    let a = put(&mut g.memory, Value::Int(10));
    let before = g.memory.len();
    let copy = Value::Int(3).deep_clone(&mut g).unwrap();
    assert!(matches!(copy, Value::Int(3)));
    assert_eq!(g.memory.len(), before);
    // the parts of a copy are new slots
    let arr = Value::Array(vec![a]);
    let copy = arr.deep_clone(&mut g).unwrap();
    match copy {
        Value::Array(keys) => {
            assert_eq!(keys.len(), 1);
            assert!(keys[0] != a);
            assert!(matches!(g.memory.get(keys[0]).value, Value::Int(10)));
        }
        other => panic!("{:?}", other),
    }
    assert_eq!(g.memory.len(), before + 1);
}

#[test]
fn whole_floats_are_written_as_numerals() {
    let m = Memory::new();
    let text = |x: f64| fl(x).to_str(&m, &Ieee);
    for x in [0.0, 1.0, -1.0, 7.0, 1007.0, -1268.0, 4294967296.0, 1e15, -1e18, 9007199254740993.0] {
        assert_eq!(text(x), x.to_string(), "{}", x);
    }
    assert_eq!(text(-0.0), "-0");
    assert_eq!(text(1e18), "1000000000000000000");
    // any other float is written by the floating-point unit
    assert_eq!(text(1.5), "1.5");
    assert_eq!(text(1e300), 1e300f64.to_string());
}
