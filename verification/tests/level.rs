use spwn::error::RuntimeError;
use spwn::float::FloatUnit;
use spwn::ids::{Group, IdClass};
use spwn::level::{get_used_ids, remove_spwn_objects, IdSet, UsedIds};
use spwn::objects::{GdObj, ObjParam, ObjectMode};
use spwn::resolve::{append_objects, serialize_all, Resolver};
use spwn::serialize::{
    join_params, number_text, param_text, render_params, rounded_text, serialize_obj, sign,
};

struct Ieee;

impl FloatUnit for Ieee {
    fn from_int(&self, n: i64) -> u64 {
        (n as f64).to_bits()
    }

    fn sum(&self, a: u64, b: u64) -> u64 {
        (f64::from_bits(a) + f64::from_bits(b)).to_bits()
    }

    fn difference(&self, a: u64, b: u64) -> u64 {
        (f64::from_bits(a) - f64::from_bits(b)).to_bits()
    }

    fn product(&self, a: u64, b: u64) -> u64 {
        (f64::from_bits(a) * f64::from_bits(b)).to_bits()
    }

    fn quotient(&self, a: u64, b: u64) -> u64 {
        (f64::from_bits(a) / f64::from_bits(b)).to_bits()
    }

    fn remainder(&self, a: u64, b: u64) -> u64 {
        (f64::from_bits(a) % f64::from_bits(b)).to_bits()
    }

    fn power(&self, a: u64, b: u64) -> u64 {
        f64::from_bits(a).powf(f64::from_bits(b)).to_bits()
    }

    fn round(&self, a: u64) -> u64 {
        f64::from_bits(a).round().to_bits()
    }

    fn floor_to_int(&self, a: u64) -> i64 {
        f64::from_bits(a).floor() as i64
    }

    fn to_i32(&self, a: u64) -> i32 {
        f64::from_bits(a) as i32
    }

    fn show(&self, a: u64) -> String {
        f64::from_bits(a).to_string()
    }

    fn fixed(&self, a: u64, places: usize) -> String {
        format!("{:.1$}", f64::from_bits(a), places)
    }
}

fn num(x: f64) -> ObjParam {
    ObjParam::Number(x.to_bits())
}

fn group(id: u16) -> ObjParam {
    ObjParam::Group(Group { id, arbitrary: false })
}

fn any_group(id: u16) -> ObjParam {
    ObjParam::Group(Group { id, arbitrary: true })
}

fn object(mode: ObjectMode, params: Vec<(u16, ObjParam)>) -> GdObj {
    let mut o = GdObj::new(mode);
    for (k, p) in params {
        o.insert(k, p);
    }
    o
}

fn ids_of(set: &IdSet) -> Vec<u16> {
    (0..=u16::MAX).filter(|i| set.contains(*i)).collect()
}

#[test]
fn parameters_are_put_into_text() {
    let fl = Ieee;
    assert_eq!(param_text(&group(5), &fl), "5");
    assert_eq!(param_text(&any_group(5), &fl), "0");
    assert_eq!(param_text(&ObjParam::Color(spwn::ids::Color { id: 7, arbitrary: false }), &fl), "7");
    assert_eq!(param_text(&ObjParam::Block(spwn::ids::Block { id: 8, arbitrary: true }), &fl), "0");
    assert_eq!(param_text(&ObjParam::Item(spwn::ids::Item { id: 9, arbitrary: false }), &fl), "9");
    assert_eq!(param_text(&ObjParam::Bool(true), &fl), "1");
    assert_eq!(param_text(&ObjParam::Bool(false), &fl), "0");
    assert_eq!(param_text(&ObjParam::Text("a b".to_string()), &fl), "a b");
    assert_eq!(param_text(&ObjParam::Epsilon, &fl), "0.05");
    let list = ObjParam::GroupList(vec![
        Group { id: 1, arbitrary: false },
        Group { id: 2, arbitrary: true },
        Group { id: 3, arbitrary: false },
    ]);
    assert_eq!(param_text(&list, &fl), "1.0.3");
    assert_eq!(param_text(&ObjParam::GroupList(vec![]), &fl), "");
    assert_eq!(param_text(&ObjParam::GroupList(vec![Group::new(4)]), &fl), "4");
}

#[test]
fn numbers_near_a_whole_number_are_written_whole() {
    let fl = Ieee;
    assert_eq!(param_text(&num(1007.0), &fl), "1007");
    assert_eq!(param_text(&num(0.0), &fl), "0");
    assert_eq!(param_text(&num(-3.0), &fl), "-3");
    assert_eq!(param_text(&num(2.0004), &fl), "2");
    assert_eq!(param_text(&num(1.9996), &fl), "2");
    assert_eq!(param_text(&num(-0.0), &fl), "0");
    assert_eq!(param_text(&num(2147483647.0), &fl), "2147483647");
    assert_eq!(param_text(&num(-2147483648.0), &fl), "-2147483648");
    assert_eq!(param_text(&num(2147483648.0), &fl), "2147483647");
    assert_eq!(param_text(&num(-1.9996), &fl), "-2");
    assert_eq!(param_text(&num(1.25), &fl), "1.250");
    assert_eq!(param_text(&num(1.5), &fl), "1.500");
    assert_eq!(param_text(&num(0.05), &fl), "0.050");
    assert_eq!(param_text(&num(-0.125), &fl), "-0.125");
    assert_eq!(param_text(&num(2.002), &fl), "2.002");
    assert_eq!(param_text(&ObjParam::Number(12.3456f64.to_bits()), &fl), "12.346");
    assert_eq!(number_text(true, -12, "x".to_string()), "-12");
    assert_eq!(number_text(false, -12, "1.250".to_string()), "1.250");
}

#[test]
fn signing_puts_the_signature_group_into_57() {
    let mut none = object(ObjectMode::Object, vec![(1, num(1.0))]);
    sign(&mut none);
    assert!(none.params[1].1.same(&group(1001)));
    assert_eq!(none.params[1].0, 57);

    let mut single = object(ObjectMode::Object, vec![(57, group(5))]);
    sign(&mut single);
    assert!(single.params[0].1.same(&ObjParam::GroupList(vec![Group::new(5), Group::new(1001)])));

    let mut list = object(
        ObjectMode::Object,
        vec![(57, ObjParam::GroupList(vec![Group::new(5), Group::new(6)]))],
    );
    sign(&mut list);
    assert!(list.params[0].1.same(&ObjParam::GroupList(vec![
        Group::new(5),
        Group::new(6),
        Group::new(1001)
    ])));

    let mut other = object(ObjectMode::Trigger, vec![(57, ObjParam::Bool(true))]);
    sign(&mut other);
    assert!(other.params[0].1.same(&group(1001)));
    assert_eq!(other.params.len(), 1);
}

#[test]
fn objects_are_written_in_key_order() {
    let fl = Ieee;
    let o = object(ObjectMode::Object, vec![(51, group(5)), (1, num(1007.0))]);
    assert_eq!(serialize_obj(o, &fl), "1,1007,51,5,57,1001,;");
    let t = object(ObjectMode::Trigger, vec![(57, group(0)), (51, group(5)), (1, num(1007.0))]);
    assert_eq!(serialize_obj(t, &fl), "1,1007,51,5,57,0.1001,108,1;");
    let empty = object(ObjectMode::Trigger, vec![]);
    assert_eq!(serialize_obj(empty, &fl), "57,1001,108,1;");
    let texts = object(ObjectMode::Object, vec![(31, ObjParam::Text("aGk=".into())), (2, num(1.5))]);
    assert_eq!(serialize_obj(texts, &fl), "2,1.500,31,aGk=,57,1001,;");
}

#[test]
fn rendering_and_joining_are_the_two_halves_of_writing() {
    let fl = Ieee;
    let o = object(ObjectMode::Trigger, vec![(51, any_group(3)), (1, num(1268.0))]);
    let pairs = render_params(&o, &fl);
    assert_eq!(pairs, vec![(1u16, "1268".to_string()), (51u16, "0".to_string())]);
    assert_eq!(join_params(&pairs, ObjectMode::Trigger), "1,1268,51,0,108,1;");
    assert_eq!(join_params(&pairs, ObjectMode::Object), "1,1268,51,0,;");
    assert_eq!(join_params(&vec![], ObjectMode::Object), ";");
}

#[test]
fn writing_an_object_and_reading_it_back_keeps_its_parameters() {
    let fl = Ieee;
    let o = object(
        ObjectMode::Object,
        vec![
            (51, group(5)),
            (1, num(1007.0)),
            (31, ObjParam::Text("hello world".into())),
            (10, num(0.25)),
            (57, group(3)),
            (62, ObjParam::Bool(true)),
        ],
    );
    let mut signed = o.copy();
    sign(&mut signed);
    let text = serialize_obj(o, &fl);
    let body = text.strip_suffix(';').unwrap();
    let tokens: Vec<&str> = body.split(',').collect();
    let mut read: Vec<(String, String)> = Vec::new();
    let mut i = 0;
    while i + 1 < tokens.len() {
        read.push((tokens[i].to_string(), tokens[i + 1].to_string()));
        i += 2;
    }
    let want: Vec<(String, String)> =
        signed.params.iter().map(|(k, p)| (k.to_string(), param_text(p, &fl))).collect();
    assert_eq!(read, want);
    assert_eq!(read.len(), 6);
    assert_eq!(read[4], ("57".to_string(), "3.1001".to_string()));
}

#[test]
fn used_ids_are_read_class_by_class() {
    let ls = "1,1,57,5.6;1,1006,51,7;1,1006,52,1,51,8;1,2,51,9;21,3;22,4;23,5;71,10;80,11;\
              1,1815,80,12;1,1816,80,13;1,1615,80,14;95,15";
    let used = get_used_ids(ls).unwrap();
    assert_eq!(ids_of(&used.group), vec![5, 6, 8, 9, 10]);
    assert_eq!(ids_of(&used.color), vec![3, 4, 5, 7]);
    assert_eq!(ids_of(&used.block), vec![12, 13, 15]);
    assert_eq!(ids_of(&used.item), vec![11]);
    assert_eq!(used.len(IdClass::Group), 5);
    assert_eq!(used.len(IdClass::Color), 4);
    assert_eq!(used.len(IdClass::Block), 3);
    assert_eq!(used.len(IdClass::Item), 1);
    assert!(used.contains(IdClass::Group, 5));
    assert!(!used.contains(IdClass::Group, 7));
}

#[test]
fn the_last_property_of_a_key_counts() {
    let used = get_used_ids("57,1,57,2;71,3,71,4,1,5").unwrap();
    assert_eq!(ids_of(&used.group), vec![2, 4]);
    // the object id that decides comes last here
    let used = get_used_ids("51,7,1,1006;51,8,1,1,1,1006,52,1").unwrap();
    assert_eq!(ids_of(&used.color), vec![7]);
    assert_eq!(ids_of(&used.group), vec![8]);
}

#[test]
fn a_level_without_ids_occupies_nothing() {
    for ls in ["", ";", "1,1,2,15,3,15;", "kS38,1_40_2_125;1,1", "57"] {
        let used = get_used_ids(ls).unwrap();
        assert_eq!(used.len(IdClass::Group), 0, "{}", ls);
        assert_eq!(used.len(IdClass::Color), 0);
        assert_eq!(used.len(IdClass::Block), 0);
        assert_eq!(used.len(IdClass::Item), 0);
    }
}

#[test]
fn an_id_that_cannot_be_read_spoils_the_level() {
    for ls in ["57,abc", "57,1.x", "57,1..2", "51,", "1,1;21,70000", "95,-1", "1,1815,80,x"] {
        assert!(get_used_ids(ls).is_none(), "{}", ls);
    }
    // what is not read cannot spoil
    assert!(get_used_ids("1,1615,80,x").is_some());
    assert!(get_used_ids("57,x,57,1").is_some());
}

#[test]
fn id_sets_count_distinct_ids() {
    let mut s = IdSet::new();
    assert_eq!(s.len(), 0);
    s.insert(5);
    s.insert(5);
    s.insert(0);
    s.insert(65535);
    assert_eq!(s.len(), 3);
    assert!(s.contains(0) && s.contains(5) && s.contains(65535) && !s.contains(6));
    let mut u = UsedIds::new();
    u.insert(IdClass::Block, 9);
    assert!(u.contains(IdClass::Block, 9));
    assert!(!u.contains(IdClass::Item, 9));
    assert_eq!(u.len(IdClass::Block), 1);
}

#[test]
fn objects_of_an_earlier_run_are_emptied() {
    let mut ls = "1,1,57,5;1,2,57,1001;1,3,57,2.1001.3;1,4;57,10010;57,1001.5,2,3".to_string();
    remove_spwn_objects(&mut ls);
    assert_eq!(ls, "1,1,57,5;;;1,4;57,10010;");
    let mut none = "1,1,2,3;1,2;".to_string();
    remove_spwn_objects(&mut none);
    assert_eq!(none, "1,1,2,3;1,2;");
    let mut empty = String::new();
    remove_spwn_objects(&mut empty);
    assert_eq!(empty, "");
    let mut key_only = "1,1,57".to_string();
    remove_spwn_objects(&mut key_only);
    assert_eq!(key_only, "1,1,57");
    let mut value_is_key = "2,57,1001,3".to_string();
    remove_spwn_objects(&mut value_is_key);
    assert_eq!(value_is_key, "2,57,1001,3");
}

#[test]
fn what_was_written_is_emptied_by_the_next_run() {
    let fl = Ieee;
    let t = object(ObjectMode::Trigger, vec![(57, group(3)), (1, num(1268.0))]);
    let mut ls = format!("1,1,2,3;{}", serialize_obj(t, &fl));
    remove_spwn_objects(&mut ls);
    assert_eq!(ls, "1,1,2,3;;");
}

#[test]
fn arbitrary_ids_get_the_smallest_free_numbers() {
    let fl = Ieee;
    let objects = vec![
        object(ObjectMode::Trigger, vec![(51, any_group(7)), (57, any_group(0))]),
        object(ObjectMode::Trigger, vec![(51, any_group(0)), (57, group(0))]),
        object(
            ObjectMode::Object,
            vec![
                (21, ObjParam::Color(spwn::ids::Color { id: 0, arbitrary: true })),
                (80, ObjParam::Item(spwn::ids::Item { id: 0, arbitrary: true })),
                (95, ObjParam::Block(spwn::ids::Block { id: 0, arbitrary: true })),
                (57, ObjParam::GroupList(vec![
                    Group { id: 7, arbitrary: true },
                    Group { id: 9, arbitrary: true },
                    Group { id: 2, arbitrary: false },
                ])),
            ],
        ),
    ];
    let (text, counts) = append_objects(objects, "1,1,57,1.3;21,1;95,2;80,1", &fl).unwrap();
    assert_eq!(
        text,
        "51,2,57,4.1001,108,1;51,4,57,0.1001,108,1;21,2,57,2.5.2.1001,80,2,95,1,;"
    );
    assert_eq!(counts, [6, 2, 2, 2]);
}

#[test]
fn the_level_may_be_empty() {
    let fl = Ieee;
    let (text, counts) = append_objects(vec![], "", &fl).unwrap();
    assert_eq!(text, "");
    assert_eq!(counts, [0, 0, 0, 0]);
    let one = vec![object(ObjectMode::Trigger, vec![(57, any_group(3))])];
    let (text, counts) = append_objects(one, "", &fl).unwrap();
    assert_eq!(text, "57,1.1001,108,1;");
    assert_eq!(counts, [1, 0, 0, 0]);
}

#[test]
fn a_level_that_cannot_be_read_is_an_error() {
    let fl = Ieee;
    assert!(matches!(append_objects(vec![], "57,x", &fl), Err(RuntimeError::MalformedLevel)));
}

#[test]
fn the_resolver_never_gives_the_signature_group() {
    let mut used = UsedIds::new();
    for id in 1..=1000 {
        used.insert(IdClass::Group, id);
        used.insert(IdClass::Color, id);
    }
    let mut r = Resolver::new(used);
    assert_eq!(r.resolve(IdClass::Group, 0, true), 1002);
    assert_eq!(r.resolve(IdClass::Group, 1, true), 1003);
    assert_eq!(r.resolve(IdClass::Color, 0, true), 1001);
    assert_eq!(r.resolve(IdClass::Item, 0, true), 1);
    assert_eq!(r.resolve(IdClass::Block, 40000, true), 1);
}

#[test]
fn an_arbitrary_id_keeps_its_number() {
    let mut r = Resolver::new(UsedIds::new());
    let a = r.resolve(IdClass::Group, 7, true);
    let b = r.resolve(IdClass::Group, 8, true);
    let c = r.resolve(IdClass::Group, 7, true);
    assert_eq!((a, b, c), (1, 2, 1));
    assert_eq!(r.resolve(IdClass::Group, 50, false), 50);
    assert_eq!(r.resolve(IdClass::Color, 7, true), 1);
    assert!(r.over_limit().is_none());
    assert_eq!(r.group.closed.len(), 3);
}

#[test]
fn without_a_free_number_999_is_given() {
    let mut used = UsedIds::new();
    for id in 1..=9999 {
        used.insert(IdClass::Item, id);
    }
    let mut r = Resolver::new(used);
    assert_eq!(r.resolve(IdClass::Item, 0, true), 999);
    assert_eq!(r.resolve(IdClass::Item, 1, true), 999);
    assert_eq!(r.over_limit(), Some((IdClass::Item, 9999)));
}

#[test]
fn resolved_ids_are_between_1_and_9999_and_none_stays_arbitrary() {
    let mut used = UsedIds::new();
    for id in (1..=9999).step_by(2) {
        used.insert(IdClass::Group, id);
    }
    let mut r = Resolver::new(used);
    let objects: Vec<GdObj> = (0..300)
        .map(|k| {
            object(
                ObjectMode::Trigger,
                vec![
                    (51, any_group(k)),
                    (57, ObjParam::GroupList(vec![Group { id: k + 1, arbitrary: true }])),
                ],
            )
        })
        .collect();
    let resolved = r.resolve_objects(&objects);
    assert_eq!(resolved.len(), 300);
    let mut seen = std::collections::BTreeSet::new();
    for o in resolved.iter() {
        for (_, p) in o.params.iter() {
            let groups = match p {
                ObjParam::Group(g) => vec![*g],
                ObjParam::GroupList(l) => l.clone(),
                other => panic!("{:?}", other),
            };
            for g in groups {
                assert!(!g.arbitrary);
                assert!(g.id >= 1 && g.id <= 9999);
                assert!(g.id % 2 == 0);
                seen.insert(g.id);
            }
        }
    }
    assert_eq!(seen.len(), 301);
}

#[test]
fn more_than_999_ids_of_a_class_are_too_many() {
    let fl = Ieee;
    let objects: Vec<GdObj> =
        (0..1000).map(|k| object(ObjectMode::Object, vec![(51, any_group(k))])).collect();
    match append_objects(objects, "", &fl) {
        Err(RuntimeError::LevelLimitExceeded { class, actual, max }) => {
            assert_eq!(class, IdClass::Group);
            assert_eq!(actual, 1000);
            assert_eq!(max, 999);
        }
        other => panic!("{:?}", other),
    }
    let objects: Vec<GdObj> =
        (0..999).map(|k| object(ObjectMode::Object, vec![(51, any_group(k))])).collect();
    let (_, counts) = append_objects(objects, "", &fl).unwrap();
    assert_eq!(counts, [999, 0, 0, 0]);
    // the ids of the level count too, and groups are looked at first
    let objects: Vec<GdObj> = (0..999)
        .map(|k| {
            object(
                ObjectMode::Object,
                vec![(21, ObjParam::Color(spwn::ids::Color { id: k, arbitrary: true }))],
            )
        })
        .collect();
    match append_objects(objects, "21,5000", &fl) {
        Err(RuntimeError::LevelLimitExceeded { class, actual, max }) => {
            assert_eq!(class, IdClass::Color);
            assert_eq!(actual, 1000);
            assert_eq!(max, 999);
        }
        other => panic!("{:?}", other),
    }
}

#[test]
fn writing_is_the_same_every_time() {
    let fl = Ieee;
    let make = || {
        vec![
            object(ObjectMode::Trigger, vec![(51, any_group(2)), (57, any_group(1)), (1, num(901.0))]),
            object(ObjectMode::Object, vec![(2, num(15.5)), (57, group(4))]),
        ]
    };
    let a = append_objects(make(), "57,1.2", &fl).unwrap();
    let b = append_objects(make(), "57,1.2", &fl).unwrap();
    assert_eq!(a, b);
    assert_eq!(a.0, "1,901,51,3,57,4.1001,108,1;2,15.500,57,4.1001,;");
    assert_eq!(serialize_all(make(), &fl), "1,901,51,0,57,0.1001,108,1;2,15.500,57,4.1001,;");
}

#[test]
fn parameters_are_resolved_one_by_one() {
    let mut r = Resolver::new(UsedIds::new());
    let list = vec![
        Group { id: 4, arbitrary: true },
        Group { id: 9, arbitrary: false },
        Group { id: 4, arbitrary: true },
    ];
    assert_eq!(r.resolve_groups(&list), vec![Group::new(1), Group::new(9), Group::new(1)]);
    assert!(r.resolve_param(&any_group(5)).same(&group(2)));
    assert!(r.resolve_param(&group(77)).same(&group(77)));
    assert!(r.resolve_param(&num(1.5)).same(&num(1.5)));
    assert!(r.resolve_param(&ObjParam::Text("t".into())).same(&ObjParam::Text("t".into())));
    let o = object(ObjectMode::Trigger, vec![(57, any_group(5)), (51, any_group(6)), (2, num(3.0))]);
    let resolved = r.resolve_object(&o);
    assert_eq!(resolved.mode, ObjectMode::Trigger);
    assert!(resolved.same(&object(
        ObjectMode::Trigger,
        vec![(2, num(3.0)), (51, group(3)), (57, group(2))]
    )));
    assert_eq!(r.group.closed.len(), 5);
    assert!(r.over_limit().is_none());
}

#[test]
fn a_number_less_than_a_thousandth_from_a_whole_one_is_written_whole() {
    let text = |off: f64| rounded_text(off.to_bits(), 7, "7.000".to_string());
    assert_eq!(text(0.0), "7");
    assert_eq!(text(0.0009), "7");
    assert_eq!(text(-0.0009), "7");
    assert_eq!(text(0.001), "7.000");
    assert_eq!(text(-0.5), "7.000");
    assert_eq!(text(f64::NAN), "7.000");
    assert_eq!(rounded_text(0.0004f64.to_bits(), -12, "x".to_string()), "-12");
}
