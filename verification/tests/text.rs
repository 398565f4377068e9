use spwn::ids::{Block, Color, Group, Id, IdClass, Item, SPWN_SIGNATURE_GROUP};
use spwn::sources::CodeArea;
use spwn::text::{
    chars_of, int_numeral_string, numeral_string, parse_u16, push_chars, split_bounds,
};
use spwn::value::{Pattern, ValueType};

fn pieces(s: &str, sep: char) -> Vec<String> {
    let chars = chars_of(s);
    split_bounds(&chars, 0, chars.len(), sep)
        .iter()
        .map(|(a, b)| chars[*a..*b].iter().collect::<String>())
        .collect()
}

#[test]
fn chars_of_keeps_every_character() {
    assert_eq!(chars_of("a;b"), vec!['a', ';', 'b']);
    assert_eq!(chars_of(""), Vec::<char>::new());
    assert_eq!(chars_of("é1"), vec!['é', '1']);
}

#[test]
fn push_chars_appends_a_range() {
    let mut s = String::from("x");
    push_chars(&mut s, &chars_of("hello"), 1, 4);
    assert_eq!(s, "xell");
}

#[test]
fn numerals_have_no_leading_zeros() {
    assert_eq!(numeral_string(0), "0");
    assert_eq!(numeral_string(7), "7");
    assert_eq!(numeral_string(1001), "1001");
    assert_eq!(numeral_string(u64::MAX), "18446744073709551615");
}

#[test]
fn signed_numerals_carry_a_minus() {
    assert_eq!(int_numeral_string(0), "0");
    assert_eq!(int_numeral_string(-1), "-1");
    assert_eq!(int_numeral_string(1268), "1268");
    assert_eq!(int_numeral_string(i64::MIN), "-9223372036854775808");
    assert_eq!(int_numeral_string(i64::MAX), "9223372036854775807");
}

#[test]
fn parse_u16_reads_what_std_reads() {
    for text in ["0", "1", "007", "+5", "65535", "65536", "", "+", "-1", "1a", " 1", "99999999999"] {
        let chars = chars_of(text);
        assert_eq!(parse_u16(&chars, 0, chars.len()), text.parse::<u16>().ok(), "{}", text);
    }
}

#[test]
fn parse_u16_reads_a_range() {
    let chars = chars_of("57,1001.12");
    assert_eq!(parse_u16(&chars, 3, 7), Some(1001));
    assert_eq!(parse_u16(&chars, 8, 10), Some(12));
    assert_eq!(parse_u16(&chars, 0, 3), None);
}

#[test]
fn split_gives_one_more_piece_than_separators() {
    assert_eq!(pieces("1,2,3", ','), vec!["1", "2", "3"]);
    assert_eq!(pieces("1,2,", ','), vec!["1", "2", ""]);
    assert_eq!(pieces("", ','), vec![""]);
    assert_eq!(pieces(";;", ';'), vec!["", "", ""]);
    assert_eq!(pieces("abc", ';'), vec!["abc"]);
}

#[test]
fn split_matches_std_split() {
    for text in ["1,1,2,3;57,1001;", "a", ",", "x,,y", ""] {
        let want: Vec<String> = text.split(',').map(|s| s.to_string()).collect();
        assert_eq!(pieces(text, ','), want);
    }
}

#[test]
fn id_text_is_number_or_question_mark() {
    assert_eq!(Id::Specific(12).to_str(), "12");
    assert_eq!(Id::Specific(0).to_str(), "0");
    assert_eq!(Id::Arbitrary(12).to_str(), "?");
}

#[test]
fn id_class_index_orders_the_classes() {
    assert_eq!(IdClass::Group.index(), 0);
    assert_eq!(IdClass::Color.index(), 1);
    assert_eq!(IdClass::Block.index(), 2);
    assert_eq!(IdClass::Item.index(), 3);
}

#[test]
fn new_ids_are_specific() {
    assert_eq!(Group::new(5), Group { id: 5, arbitrary: false });
    assert_eq!(Color::new(6), Color { id: 6, arbitrary: false });
    assert_eq!(Block::new(7), Block { id: 7, arbitrary: false });
    assert_eq!(Item::new(8), Item { id: 8, arbitrary: false });
    assert_eq!(Group::test_fn(), Group::new(10));
}

#[test]
fn group_from_id_keeps_the_kind() {
    assert_eq!(Group::from_id(Id::Specific(3)), Group { id: 3, arbitrary: false });
    assert_eq!(Group::from_id(Id::Arbitrary(3)), Group { id: 3, arbitrary: true });
    assert_eq!(SPWN_SIGNATURE_GROUP, 1001);
}

#[test]
fn code_area_new_fills_the_fields() {
    assert_eq!(CodeArea::new(1, 2, 3), CodeArea { source: 1, start: 2, end: 3 });
}

#[test]
fn value_type_text_has_an_at_sign() {
    assert_eq!(ValueType::Int.to_str(), "@int");
    assert_eq!(ValueType::Float.to_str(), "@float");
    assert_eq!(ValueType::String.to_str(), "@string");
    assert_eq!(ValueType::Bool.to_str(), "@bool");
    assert_eq!(ValueType::Empty.to_str(), "@empty");
    assert_eq!(ValueType::Array.to_str(), "@array");
    assert_eq!(ValueType::Dict.to_str(), "@dictionary");
    assert_eq!(ValueType::Maybe.to_str(), "@maybe");
    assert_eq!(ValueType::TypeIndicator.to_str(), "@type_indicator");
    assert_eq!(ValueType::Pattern.to_str(), "@pattern");
    assert_eq!(ValueType::Group.to_str(), "@group");
    assert_eq!(ValueType::TriggerFunc.to_str(), "@trigger_function");
    assert_eq!(ValueType::Macro.to_str(), "@macro");
    assert_eq!(ValueType::Object.to_str(), "@object");
}

#[test]
fn pattern_text_shows_the_shape() {
    assert_eq!(Pattern::Any.to_str(), "_");
    assert_eq!(Pattern::Type(ValueType::Int).to_str(), "@int");
    let m = Pattern::Macro {
        args: vec![Pattern::Type(ValueType::Int), Pattern::Any],
        ret: Box::new(Pattern::Type(ValueType::Bool)),
    };
    assert_eq!(m.to_str(), "(@int, _) -> @bool");
    let none = Pattern::Macro { args: vec![], ret: Box::new(Pattern::Any) };
    assert_eq!(none.to_str(), "() -> _");
    let nested = Pattern::Macro { args: vec![m.copy()], ret: Box::new(none.copy()) };
    assert_eq!(nested.to_str(), "((@int, _) -> @bool) -> () -> _");
}

#[test]
fn pattern_same_compares_by_value() {
    let a = Pattern::Macro {
        args: vec![Pattern::Type(ValueType::Int)],
        ret: Box::new(Pattern::Any),
    };
    assert!(a.same(&a.copy()));
    assert!(!a.same(&Pattern::Any));
    let b = Pattern::Macro {
        args: vec![Pattern::Type(ValueType::Float)],
        ret: Box::new(Pattern::Any),
    };
    assert!(!a.same(&b));
    let c = Pattern::Macro { args: vec![], ret: Box::new(Pattern::Any) };
    assert!(!a.same(&c));
}
