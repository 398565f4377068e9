use spwn::bytecode::{ArgSpans, BytecodeFunc, Code, Constant, Instruction};
use spwn::calls::{CallId, LiveCalls};
use spwn::contexts::{Block, Context, FullContext, ReturnType};
use spwn::error::RuntimeError;
use spwn::globals::{Globals, IdCounters};
use spwn::ids::{Group, Id, IdClass};
use spwn::objects::{GdObj, ObjParam, ObjectMode};
use spwn::machine::push_value;
use spwn::sources::CodeArea;
use spwn::value::{Value, ValueKey};

fn area() -> CodeArea {
    CodeArea { source: 0, start: 0, end: 0 }
}

fn func(n: usize, scoped: Vec<u16>, captures: Vec<u16>) -> BytecodeFunc {
    BytecodeFunc {
        instructions: vec![Instruction::PushEmpty; n],
        arg_ids: vec![],
        capture_ids: captures,
        scoped_var_ids: scoped,
    }
}

fn code(funcs: Vec<BytecodeFunc>, var_count: usize) -> Code {
    Code {
        source: 0,
        var_count,
        bytecode_funcs: funcs,
        spans: vec![],
        constants: vec![],
        names: vec![],
        name_sets: vec![],
        destinations: vec![],
        macro_build_info: vec![],
        macro_arg_spans: vec![],
    }
}

fn put(g: &mut Globals, v: Value) -> ValueKey {
    g.memory.insert(v.into_stored(area()))
}

fn leaf_ids(t: &FullContext) -> Vec<String> {
    let mut it = t.iter();
    let mut out = vec![];
    while let Some(leaf) = it.next() {
        match leaf {
            FullContext::Single(c) => out.push(c.id.clone()),
            FullContext::Split(..) => panic!("a split is no leaf"),
        }
    }
    out
}

fn named(id: &str, alive: bool) -> FullContext {
    let mut c = Context::new(0);
    c.id = id.to_string();
    if !alive {
        c.yeet();
    }
    FullContext::Single(c)
}

fn split(l: FullContext, r: FullContext) -> FullContext {
    FullContext::Split(Box::new(l), Box::new(r))
}

#[test]
fn a_new_context_stands_at_the_start() {
    let c = Context::new(3);
    assert_eq!(c.group, Id::Specific(0));
    assert_eq!(c.id, "O");
    assert_eq!(c.pos, vec![(0, 0, CallId(0))]);
    assert_eq!(c.vars, vec![Vec::<ValueKey>::new(); 3]);
    assert!(c.stack.is_empty());
    assert!(c.block_stack.is_empty());
    assert!(c.returned.is_none());
}

#[test]
fn pos_is_the_current_frame() {
    let mut c = Context::new(0);
    c.pos.push((2, 7, CallId(4)));
    assert_eq!(*c.pos(), (2, 7, CallId(4)));
    c.pos().1 = 9;
    assert_eq!(c.pos, vec![(0, 0, CallId(0)), (2, 9, CallId(4))]);
    *c.pos() = (1, 1, CallId(1));
    assert_eq!(c.pos[1], (1, 1, CallId(1)));
    assert_eq!(c.pos[0], (0, 0, CallId(0)));
}

#[test]
fn set_group_changes_the_group_only() {
    let mut c = Context::new(1);
    c.set_group(Id::Arbitrary(4));
    assert_eq!(c.group, Id::Arbitrary(4));
    assert_eq!(c.pos.len(), 1);
    assert_eq!(c.id, "O");
}

#[test]
fn yeet_leaves_no_frame() {
    let mut c = Context::new(1);
    c.pos.push((1, 0, CallId(1)));
    c.yeet();
    assert!(c.pos.is_empty());
    assert_eq!(c.vars.len(), 1);
}

#[test]
fn variables_are_stacks_of_keys() {
    let mut g = Globals::new();
    let a = put(&mut g, Value::Int(1));
    let b = put(&mut g, Value::Int(2));
    let c3 = put(&mut g, Value::Int(3));
    let mut c = Context::new(3);
    assert!(!c.has_var(0));
    assert!(!c.has_var(9));
    c.vars[0].push(a);
    c.vars[0].push(b);
    c.vars[2].push(c3);
    assert!(c.has_var(0) && !c.has_var(1) && c.has_var(2));
    assert_eq!(c.get_var(0), b);
    assert_eq!(c.get_var(2), c3);
    c.replace_var(0, c3);
    assert_eq!(c.vars[0], vec![a, c3]);
    assert_eq!(c.get_var(0), c3);
    c.pop_vars(&[0, 1, 2, 7]);
    assert_eq!(c.vars, vec![vec![a], vec![], vec![]]);
    c.pop_vars(&[0, 0]);
    assert_eq!(c.vars, vec![Vec::<ValueKey>::new(); 3]);
}

#[test]
fn push_vars_gives_new_empty_values() {
    let mut g = Globals::new();
    let program = code(vec![func(1, vec![], vec![])], 2);
    let mut c = Context::new(2);
    assert!(c.push_vars(&[0, 1, 0, 5], &program, &mut g));
    assert_eq!(c.vars[0].len(), 2);
    assert_eq!(c.vars[1].len(), 1);
    assert!(c.vars[0][0] != c.vars[0][1]);
    assert!(matches!(g.memory.get(c.get_var(0)).value, Value::Empty));
    assert_eq!(g.memory.len(), 3);
}

#[test]
fn set_var_assigns_a_deep_copy() {
    let mut g = Globals::new();
    let program = code(vec![func(1, vec![], vec![])], 1);
    let mut c = Context::new(1);
    assert!(c.push_vars(&[0], &program, &mut g));
    let one = put(&mut g, Value::Int(1));
    let arr = put(&mut g, Value::Array(vec![one]));
    let slot = c.get_var(0);
    assert!(c.set_var(0, arr, &mut g));
    assert_eq!(c.get_var(0), slot);
    match &g.memory.get(slot).value {
        Value::Array(k) => {
            assert!(k[0] != one);
            assert!(matches!(g.memory.get(k[0]).value, Value::Int(1)));
        }
        other => panic!("{:?}", other),
    }
}

#[test]
fn advancing_inside_a_function_only_moves_the_index() {
    let g = Globals::new();
    let program = code(vec![func(5, vec![], vec![])], 0);
    let mut c = Context::new(0);
    c.advance_to(&program, 3, &g);
    assert_eq!(c.pos, vec![(0, 3, CallId(0))]);
    c.advance_by(&program, 1, &g);
    assert_eq!(c.pos, vec![(0, 4, CallId(0))]);
}

#[test]
fn advancing_past_the_end_returns() {
    let mut g = Globals::new();
    g.calls.insert(CallId(1));
    g.calls.insert(CallId(2));
    let program = code(
        vec![func(5, vec![], vec![]), func(2, vec![0], vec![1]), func(1, vec![], vec![])],
        2,
    );
    let k = put(&mut g, Value::Int(1));
    let mut c = Context::new(2);
    c.vars[0].push(k);
    c.vars[0].push(k);
    c.vars[1].push(k);
    c.pos = vec![(0, 1, CallId(0)), (1, 0, CallId(1))];
    c.advance_by(&program, 2, &g);
    // the frame of function 1 is given up with its variables; the caller moves on
    assert_eq!(c.pos, vec![(0, 2, CallId(0))]);
    assert_eq!(c.vars, vec![vec![k], vec![]]);

    // a caller that stands at its last instruction is given up too
    let mut c = Context::new(2);
    c.pos = vec![(0, 0, CallId(0)), (2, 0, CallId(2)), (1, 1, CallId(1))];
    c.advance_to(&program, 2, &g);
    // function 2 has one instruction: moved on by one it is past its end, and so on
    assert_eq!(c.pos, vec![(0, 1, CallId(0))]);
}

#[test]
fn a_call_that_is_no_longer_going_on_ends_the_context() {
    let g = Globals::new();
    let program = code(vec![func(5, vec![], vec![]), func(2, vec![], vec![])], 0);
    let mut c = Context::new(0);
    c.pos = vec![(0, 1, CallId(0)), (1, 0, CallId(7))];
    c.advance_to(&program, 2, &g);
    assert!(c.pos.is_empty());
}

#[test]
fn return_out_gives_the_frame_up() {
    let mut g = Globals::new();
    g.calls.insert(CallId(0));
    let program = code(vec![func(5, vec![], vec![]), func(2, vec![], vec![])], 0);
    let mut c = Context::new(0);
    c.pos = vec![(0, 1, CallId(0)), (1, 0, CallId(7))];
    c.return_out(&program, &g);
    assert_eq!(c.pos, vec![(0, 2, CallId(0))]);
    c.return_out(&program, &g);
    assert!(c.pos.is_empty());
}

#[test]
fn a_function_that_does_not_exist_has_no_instructions() {
    let mut g = Globals::new();
    g.calls.insert(CallId(3));
    let program = code(vec![func(5, vec![], vec![])], 0);
    let mut c = Context::new(0);
    c.pos = vec![(0, 1, CallId(0)), (9, 0, CallId(3))];
    c.advance_to(&program, 0, &g);
    assert_eq!(c.pos, vec![(0, 2, CallId(0))]);
    assert_eq!(program.func_len(9), 0);
    assert_eq!(program.func_len(0), 5);
    assert!(program.instruction(0, 5).is_none());
    assert_eq!(program.instruction(0, 4), Some(Instruction::PushEmpty));
}

#[test]
fn clone_context_copies_what_stack_and_variables_hold() {
    let mut g = Globals::new();
    let one = put(&mut g, Value::Int(1));
    let arr = put(&mut g, Value::Array(vec![one]));
    let mut c = Context::new(2);
    c.stack.push(arr);
    c.vars[1].push(one);
    c.block_stack.push(Block::Try(4));
    c.returned = Some(ReturnType::Implicit);
    c.set_group(Id::Arbitrary(2));
    let b = c.clone_context(&mut g).unwrap();
    assert_eq!(b.group, c.group);
    assert_eq!(b.id, c.id);
    assert_eq!(b.pos, c.pos);
    assert_eq!(b.returned, c.returned);
    assert!(matches!(b.block_stack[0], Block::Try(4)));
    assert_eq!(b.stack.len(), 1);
    assert!(b.stack[0] != arr);
    assert_eq!(b.vars[0].len(), 0);
    assert!(b.vars[1][0] != one);
    match &g.memory.get(b.stack[0]).value {
        Value::Array(k) => assert!(k[0] != one && k[0] != b.vars[1][0]),
        other => panic!("{:?}", other),
    }
    assert_eq!(c.stack, vec![arr]);
}

#[test]
fn single_is_one_leaf() {
    let mut t = FullContext::single(2);
    assert_eq!(leaf_ids(&t), vec!["O"]);
    assert_eq!(t.inner().vars.len(), 2);
    t.inner().set_group(Id::Specific(9));
    assert!(matches!(&t, FullContext::Single(c) if c.group == Id::Specific(9)));
}

#[test]
fn leaves_are_walked_from_left_to_right() {
    let t = split(
        split(named("a", true), split(named("b", true), named("c", true))),
        split(named("d", true), named("e", true)),
    );
    assert_eq!(leaf_ids(&t), vec!["a", "b", "c", "d", "e"]);
    let right = split(named("a", true), split(named("b", true), named("c", true)));
    assert_eq!(leaf_ids(&right), vec!["a", "b", "c"]);
    let mut it = right.iter();
    assert!(it.next().is_some());
    assert!(it.next().is_some());
    assert!(it.next().is_some());
    assert!(it.next().is_none());
    assert!(it.next().is_none());
}

#[test]
fn stack_chains_to_the_right() {
    assert!(FullContext::stack(vec![]).is_none());
    let one = FullContext::stack(vec![named("a", true)]).unwrap();
    assert!(matches!(one, FullContext::Single(_)));
    let t = FullContext::stack(vec![named("a", true), named("b", true), named("c", true)]).unwrap();
    assert_eq!(leaf_ids(&t), vec!["a", "b", "c"]);
    match &t {
        FullContext::Split(l, r) => {
            assert!(matches!(**l, FullContext::Single(_)));
            match &**r {
                FullContext::Split(l2, r2) => {
                    assert!(matches!(**l2, FullContext::Single(_)));
                    assert!(matches!(**r2, FullContext::Single(_)));
                }
                other => panic!("{:?}", other),
            }
        }
        other => panic!("{:?}", other),
    }
}

#[test]
fn remove_finished_keeps_the_contexts_with_a_frame() {
    let mut t = split(
        split(named("a", false), split(named("b", true), named("c", false))),
        split(named("d", true), named("e", true)),
    );
    assert!(t.has_survivor());
    assert!(t.remove_finished());
    assert_eq!(leaf_ids(&t), vec!["b", "d", "e"]);
    assert!(matches!(&t, FullContext::Split(l, _) if matches!(**l, FullContext::Single(_))));
    assert!(t.remove_finished());
    assert_eq!(leaf_ids(&t), vec!["b", "d", "e"]);

    let mut dead = split(named("a", false), named("b", false));
    assert!(!dead.has_survivor());
    assert!(!dead.remove_finished());
    assert_eq!(leaf_ids(&dead), vec!["a", "b"]);
}

#[test]
fn split_context_makes_two_leaves_that_share_no_slot() {
    let mut g = Globals::new();
    let one = put(&mut g, Value::Int(1));
    let arr = put(&mut g, Value::Array(vec![one]));
    let mut t = FullContext::single(1);
    t.inner().stack.push(arr);
    t.inner().vars[0].push(one);
    assert!(t.split_context(&mut g));
    assert_eq!(leaf_ids(&t), vec!["Oa", "Ob"]);
    match &t {
        FullContext::Split(l, r) => match (&**l, &**r) {
            (FullContext::Single(a), FullContext::Single(b)) => {
                assert_eq!(a.stack, vec![arr]);
                assert_eq!(a.vars[0], vec![one]);
                let mut left = vec![arr, one];
                let mut right = vec![b.stack[0], b.vars[0][0]];
                match &g.memory.get(b.stack[0]).value {
                    Value::Array(k) => right.push(k[0]),
                    other => panic!("{:?}", other),
                }
                left.sort();
                right.sort();
                for k in right.iter() {
                    assert!(!left.contains(k));
                    assert!(g.memory.has(*k));
                }
                assert_eq!(right.len(), 3);
                assert!(right[0] != right[1] && right[1] != right[2]);
                assert_eq!(a.pos, b.pos);
            }
            other => panic!("{:?}", other),
        },
        other => panic!("{:?}", other),
    }
}

#[test]
fn live_calls_hold_what_was_inserted() {
    let mut calls = LiveCalls::new();
    assert!(!calls.contains(CallId(0)));
    assert!(calls.insert(CallId(3)));
    assert!(!calls.insert(CallId(3)));
    assert!(calls.insert(CallId(4)));
    assert!(calls.contains(CallId(3)) && calls.contains(CallId(4)));
    assert!(!calls.contains(CallId(5)));
}

#[test]
fn globals_start_empty() {
    let mut g = Globals::new();
    g.init();
    assert_eq!(g.memory.len(), 0);
    assert_eq!(g.arbitrary_ids, IdCounters { group: 0, color: 0, block: 0, item: 0 });
    assert!(g.objects.is_empty() && g.triggers.is_empty() && g.printed.is_empty());
    assert_eq!(g.call_counter, CallId(0));
    assert!(!g.calls.contains(CallId(0)));
}

#[test]
fn arbitrary_ids_of_a_class_are_pairwise_distinct() {
    let mut g = Globals::new();
    let mut groups = vec![];
    let mut items = vec![];
    for _ in 0..100 {
        groups.push(g.next_id(IdClass::Group).unwrap());
        items.push(g.next_id(IdClass::Item).unwrap());
    }
    assert_eq!(g.next_id(IdClass::Color).unwrap(), Id::Arbitrary(0));
    for i in 0..100 {
        assert_eq!(groups[i], Id::Arbitrary(i as u16));
        for j in 0..i {
            assert!(groups[i] != groups[j]);
            assert!(items[i] != items[j]);
        }
    }
    assert_eq!(g.arbitrary_ids, IdCounters { group: 100, color: 1, block: 0, item: 100 });
}

#[test]
fn the_ids_of_a_class_run_out() {
    let mut g = Globals::new();
    g.arbitrary_ids.block = 0xFFFE;
    assert_eq!(g.next_id(IdClass::Block).unwrap(), Id::Arbitrary(0xFFFE));
    match g.next_id(IdClass::Block) {
        Err(RuntimeError::LevelLimitExceeded { class, actual, max }) => {
            assert_eq!(class, IdClass::Block);
            assert_eq!(actual, 65536);
            assert_eq!(max, 999);
        }
        other => panic!("{:?}", other),
    }
    assert_eq!(g.arbitrary_ids.block, 0xFFFF);
    assert_eq!(g.next_id(IdClass::Group).unwrap(), Id::Arbitrary(0));
}

#[test]
fn globals_clone_deeply() {
    let mut g = Globals::new();
    let one = put(&mut g, Value::Int(1));
    let arr = put(&mut g, Value::Array(vec![one]));
    let k = g.key_deep_clone(arr).unwrap();
    assert!(k != arr);
    let v = g.deep_clone(arr).unwrap();
    assert!(matches!(&v.value, Value::Array(e) if e[0] != one));
    assert_eq!(g.memory.len(), 5);
}

#[test]
fn push_value_stores_and_pushes() {
    let mut g = Globals::new();
    let mut c = Context::new(0);
    push_value(&mut c, &mut g, Value::Int(3).into_stored(area())).unwrap();
    assert_eq!(c.stack.len(), 1);
    assert!(matches!(g.memory.get(c.stack[0]).value, Value::Int(3)));
    let k = c.stack[0];
    assert_eq!(c.pop_key(), Some(k));
    assert_eq!(c.pop_key(), None);
    c.push_key(k);
    assert_eq!(c.stack, vec![k]);
    c.push_block(Block::Try(2));
    assert!(matches!(c.pop_block(), Some(Block::Try(2))));
    assert!(c.pop_block().is_none());
}

#[test]
fn an_object_is_tagged_with_the_group_of_the_context() {
    let mut c = Context::new(0);
    c.set_group(Id::Arbitrary(6));
    let mut o = GdObj::new(ObjectMode::Trigger);
    o.insert(1, ObjParam::Bool(true));
    o.insert(57, ObjParam::Group(Group::new(2)));
    let copy = o.context_parameters(&c);
    assert!(copy.same(&o));
    assert_eq!(o.params.len(), 2);
    assert!(o.params[1].1.same(&ObjParam::Group(Group { id: 6, arbitrary: true })));
    let mut plain = GdObj::new(ObjectMode::Trigger);
    let copy = plain.context_parameters(&Context::new(0));
    assert!(copy.params[0].1.same(&ObjParam::Group(Group::new(0))));
    assert_eq!(copy.params[0].0, 57);
}

#[test]
fn the_program_knows_where_its_instructions_stand() {
    let mut program = code(vec![func(2, vec![], vec![])], 0);
    program.source = 4;
    program.spans = vec![vec![(1, 2), (3, 9)]];
    program.macro_arg_spans = vec![
        ArgSpans { func: 0, index: 1, spans: vec![(5, 6)] },
        ArgSpans { func: 1, index: 1, spans: vec![] },
    ];
    assert_eq!(program.get_bytecode_span(0, 1), (3, 9));
    assert_eq!(program.get_bytecode_span(0, 2), (0, 0));
    assert_eq!(program.get_bytecode_span(3, 0), (0, 0));
    assert_eq!(program.make_area((7, 8)), CodeArea { source: 4, start: 7, end: 8 });
    assert_eq!(program.area_at(0, 0), CodeArea { source: 4, start: 1, end: 2 });
    assert_eq!(program.arg_spans(0, 1), Some(0));
    assert_eq!(program.arg_spans(1, 1), Some(1));
    assert_eq!(program.arg_spans(0, 0), None);
    let dummy = program.dummy_value();
    assert!(matches!(dummy.value, Value::Empty));
    assert_eq!(dummy.def_area, CodeArea { source: 4, start: 0, end: 0 });
}

#[test]
fn constants_become_values() {
    assert!(matches!(Constant::Int(-4).to_value(), Value::Int(-4)));
    assert!(matches!(Constant::Float(7).to_value(), Value::Float(7)));
    assert!(matches!(Constant::String("s".to_string()).to_value(), Value::String(t) if t == "s"));
    assert!(matches!(Constant::Bool(true).to_value(), Value::Bool(true)));
    assert!(matches!(Constant::Id(IdClass::Group, 3).to_value(), Value::Group(Id::Specific(3))));
    assert!(matches!(Constant::Id(IdClass::Color, 3).to_value(), Value::Color(Id::Specific(3))));
    assert!(matches!(Constant::Id(IdClass::Block, 3).to_value(), Value::Block(Id::Specific(3))));
    assert!(matches!(Constant::Id(IdClass::Item, 3).to_value(), Value::Item(Id::Specific(3))));
}

#[test]
fn only_the_errors_of_the_program_can_be_caught() {
    let v = || Value::Int(1).into_stored(area());
    let caught = vec![
        RuntimeError::TypeMismatch { v: v(), expected: String::new(), area: area() },
        RuntimeError::InvalidOperands { a: v(), b: v(), op: String::new(), area: area() },
        RuntimeError::InvalidUnaryOperand { a: v(), op: String::new(), area: area() },
        RuntimeError::CannotConvert { a: v(), to: spwn::value::ValueType::Bool },
        RuntimeError::CannotIterate { a: v() },
        RuntimeError::CannotCall { base: v(), area: area() },
        RuntimeError::UndefinedType { name: String::new(), area: area() },
        RuntimeError::UndefinedArgument { name: String::new(), macr: v(), area: area() },
        RuntimeError::TooManyArguments { expected: 0, provided: 1, call_area: area(), func: v() },
        RuntimeError::ArgumentNotSatisfied {
            arg_name: String::new(),
            call_area: area(),
            arg_area: area(),
        },
        RuntimeError::PatternMismatch {
            v: v(),
            pat: (spwn::value::Pattern::Any, area()),
            area: area(),
        },
        RuntimeError::IndexOutOfRange { index: 0, length: 0, area: area() },
    ];
    for e in caught.iter() {
        assert!(e.is_catchable(), "{:?}", e);
    }
    let fatal = vec![
        RuntimeError::LevelLimitExceeded { class: IdClass::Item, actual: 1000, max: 999 },
        RuntimeError::DependencyResolution { name: "lib".to_string() },
        RuntimeError::MalformedLevel,
        RuntimeError::MemoryExhausted,
        RuntimeError::MalformedBytecode { func: 0, index: 0 },
    ];
    for e in fatal.iter() {
        assert!(!e.is_catchable(), "{:?}", e);
    }
}
