use spwn::bytecode::{ArgSpans, BytecodeFunc, Code, Constant, Instruction, MacroBuildInfo};
use spwn::calls::CallId;
use spwn::contexts::{Block, Context, FullContext, ReturnType};
use spwn::error::RuntimeError;
use spwn::float::FloatUnit;
use spwn::globals::Globals;
use spwn::ids::{Group, Id, IdClass};
use spwn::interpreter::{execute_code, run_instruction, step, tick, unwind, RunState};
use spwn::flow::Flow;
use spwn::machine::push_value;
use spwn::objects::{GdObj, ObjParam, ObjectMode};
use spwn::resolve::append_objects;
use spwn::serialize::serialize_obj;
use spwn::sources::CodeArea;
use spwn::value::{Pattern, Value, ValueKey, ValueType};

struct Ieee;

impl FloatUnit for Ieee {
    fn from_int(&self, n: i64) -> u64 {
        (n as f64).to_bits()
    }

    fn sum(&self, a: u64, b: u64) -> u64 {
        (f64::from_bits(a) + f64::from_bits(b)).to_bits()
    }

    fn difference(&self, a: u64, b: u64) -> u64 {
        (f64::from_bits(a) - f64::from_bits(b)).to_bits()
    }

    fn product(&self, a: u64, b: u64) -> u64 {
        (f64::from_bits(a) * f64::from_bits(b)).to_bits()
    }

    fn quotient(&self, a: u64, b: u64) -> u64 {
        (f64::from_bits(a) / f64::from_bits(b)).to_bits()
    }

    fn remainder(&self, a: u64, b: u64) -> u64 {
        (f64::from_bits(a) % f64::from_bits(b)).to_bits()
    }

    fn power(&self, a: u64, b: u64) -> u64 {
        f64::from_bits(a).powf(f64::from_bits(b)).to_bits()
    }

    fn round(&self, a: u64) -> u64 {
        f64::from_bits(a).round().to_bits()
    }

    fn floor_to_int(&self, a: u64) -> i64 {
        f64::from_bits(a).floor() as i64
    }

    fn to_i32(&self, a: u64) -> i32 {
        f64::from_bits(a) as i32
    }

    fn show(&self, a: u64) -> String {
        f64::from_bits(a).to_string()
    }

    fn fixed(&self, a: u64, places: usize) -> String {
        format!("{:.1$}", f64::from_bits(a), places)
    }
}

use spwn::bytecode::Instruction::{
    LoadConst, LoadVar, SetVar, Plus, Minus, Mult, Div, Mod, Pow, NotEq, Greater, GreaterEq, Lesser, LesserEq, Is, Negate, Not, Jump, JumpIfFalse, ToIter, IterNext, PopBlock, PushTry, YeetContext, ReturnValue, BuildArray, BuildDict, PushEmpty, PushNone, WrapMaybe, PushAnyPattern, MakeMacro, MakeMacroPattern, BuildObject, BuildTrigger, AddObject, TriggerFuncCall, LoadArbitraryId, EnterTriggerFunction, EnterArrowStatement, MergeContexts, Call, Index, Print, PopTop, Split, LoadType, TypeDef, Impl, Instance,
};

fn program(instructions: Vec<Instruction>, constants: Vec<Constant>, destinations: Vec<usize>) -> Code {
    let spans = vec![(0..instructions.len()).map(|i| (i * 10, i * 10 + 5)).collect()];
    Code {
        source: 3,
        var_count: 4,
        bytecode_funcs: vec![BytecodeFunc {
            instructions,
            arg_ids: vec![],
            capture_ids: vec![],
            scoped_var_ids: vec![],
        }],
        spans,
        constants,
        names: vec!["thing".to_string()],
        name_sets: vec![],
        destinations,
        macro_build_info: vec![],
        macro_arg_spans: vec![],
    }
}

fn whole(n: i64) -> Constant {
    Constant::Int(n)
}

fn text(t: &str) -> Constant {
    Constant::String(t.to_string())
}

struct Run {
    globals: Globals,
    contexts: FullContext,
    result: Result<RunState, RuntimeError>,
}

fn run_with(code: &Code, prepare: impl FnOnce(&mut Context, &mut Globals)) -> Run {
    let mut globals = Globals::new();
    globals.init();
    let mut contexts = FullContext::single(code.var_count);
    prepare(contexts.inner(), &mut globals);
    let result = execute_code(&mut globals, code, &mut contexts, &Ieee, 100_000);
    Run { globals, contexts, result }
}

fn run(code: &Code) -> Run {
    run_with(code, |_, _| {})
}

fn leaves(t: &FullContext) -> Vec<&Context> {
    let mut it = t.iter();
    let mut out = vec![];
    while let Some(leaf) = it.next() {
        match leaf {
            FullContext::Single(c) => out.push(c),
            FullContext::Split(..) => panic!("a split is no leaf"),
        }
    }
    out
}

fn param(o: &GdObj, key: u16) -> &ObjParam {
    &o.params[o.find(key).unwrap()].1
}

fn number(o: &GdObj, key: u16) -> f64 {
    match param(o, key) {
        ObjParam::Number(x) => f64::from_bits(*x),
        other => panic!("{:?}", other),
    }
}

fn group_of(o: &GdObj, key: u16) -> Group {
    match param(o, key) {
        ObjParam::Group(g) => *g,
        other => panic!("{:?}", other),
    }
}

fn all_keys_live(globals: &Globals, contexts: &FullContext) {
    for c in leaves(contexts) {
        for k in c.stack.iter() {
            assert!(globals.memory.has(*k));
        }
        for v in c.vars.iter() {
            for k in v.iter() {
                assert!(globals.memory.has(*k));
            }
        }
    }
}

#[test]
fn a_single_trigger_is_emitted_with_the_starting_group() {
    let code = program(
        vec![LoadConst(0), LoadConst(1), LoadConst(2), LoadConst(3), BuildTrigger(2), AddObject],
        vec![whole(1), whole(1007), whole(51), Constant::Id(IdClass::Group, 5)],
        vec![],
    );
    let r = run(&code);
    assert_eq!(r.result.unwrap(), RunState::Finished);
    assert!(r.globals.objects.is_empty());
    assert_eq!(r.globals.triggers.len(), 1);
    let t = &r.globals.triggers[0];
    assert_eq!(t.mode, ObjectMode::Trigger);
    assert_eq!(number(t, 1), 1007.0);
    assert_eq!(group_of(t, 51), Group { id: 5, arbitrary: false });
    assert_eq!(group_of(t, 57), Group { id: 0, arbitrary: false });
    assert_eq!(t.params.len(), 3);
    let line = serialize_obj(t.copy(), &Ieee);
    assert!(line.ends_with("108,1;"));
    assert!(line.contains("57,0.1001,"));
    assert_eq!(line, "1,1007,51,5,57,0.1001,108,1;");
    all_keys_live(&r.globals, &r.contexts);
}

#[test]
fn a_trigger_function_splits_the_context() {
    let code = program(
        vec![
            EnterTriggerFunction(0),
            LoadConst(0),
            LoadConst(1),
            BuildTrigger(1),
            AddObject,
            YeetContext,
            PopTop,
            LoadConst(0),
            LoadConst(1),
            BuildTrigger(1),
            AddObject,
        ],
        vec![whole(1), whole(901)],
        vec![6],
    );
    let r = run(&code);
    assert_eq!(r.result.unwrap(), RunState::Finished);
    assert_eq!(r.globals.triggers.len(), 2);
    let inner = &r.globals.triggers[0];
    let outer = &r.globals.triggers[1];
    assert_eq!(group_of(inner, 57), Group { id: 0, arbitrary: true });
    assert_eq!(group_of(outer, 57), Group { id: 0, arbitrary: false });
    assert_eq!(r.globals.arbitrary_ids.group, 1);
    let triggers: Vec<GdObj> = r.globals.triggers.iter().map(|t| t.copy()).collect();
    let (text, counts) = append_objects(triggers, "1,1,57,1;1,2,57,2.4", &Ieee).unwrap();
    // the smallest group that the level does not occupy is 3
    assert_eq!(text, "1,901,57,3.1001,108,1;1,901,57,0.1001,108,1;");
    assert_eq!(counts, [5, 0, 0, 0]);
    let triggers: Vec<GdObj> = r.globals.triggers.iter().map(|t| t.copy()).collect();
    let (text, _) = append_objects(triggers, "", &Ieee).unwrap();
    assert_eq!(text, "1,901,57,1.1001,108,1;1,901,57,0.1001,108,1;");
}

#[test]
fn a_split_runs_both_branches() {
    let code = program(vec![LoadConst(0), LoadConst(1), Split, Print], vec![whole(1), whole(2)], vec![]);
    let r = run(&code);
    assert_eq!(r.result.unwrap(), RunState::Finished);
    let mut printed = r.globals.printed.clone();
    printed.sort();
    assert_eq!(printed, vec!["1", "2"]);
}

#[test]
fn the_two_halves_of_a_split_share_no_slot() {
    let code = program(
        vec![LoadConst(0), LoadConst(0), BuildArray(2), LoadConst(1), LoadConst(1), Split, PushEmpty],
        vec![whole(1), whole(2)],
        vec![],
    );
    let mut globals = Globals::new();
    let mut t = FullContext::single(0);
    for _ in 0..6 {
        let (next, progressed, err) = tick(t, &mut globals, &code, &Ieee);
        assert!(progressed && err.is_none());
        t = next;
    }
    let ls = leaves(&t);
    assert_eq!(ls.len(), 2);
    assert_eq!(ls[0].id, "Oa");
    assert_eq!(ls[1].id, "Ob");
    assert_eq!(ls[0].pos, vec![(0, 6, CallId(0))]);
    assert_eq!(ls[1].pos, vec![(0, 6, CallId(0))]);
    assert_eq!(ls[0].stack.len(), 2);
    assert_eq!(ls[1].stack.len(), 2);
    let reach = |roots: &Vec<ValueKey>| {
        let mut seen: Vec<ValueKey> = vec![];
        for k in roots {
            seen.push(*k);
            if let Value::Array(e) = &globals.memory.get(*k).value {
                seen.extend(e.iter().copied());
            }
        }
        seen
    };
    let left = reach(&ls[0].stack);
    let right = reach(&ls[1].stack);
    assert_eq!(left.len(), 4);
    assert_eq!(right.len(), 4);
    for k in left.iter() {
        assert!(!right.contains(k));
    }
    assert!(matches!(globals.memory.get(ls[0].stack[1]).value, Value::Int(2)));
    assert_eq!(globals.memory.get(ls[1].stack[0]).value.to_str(&globals.memory, &Ieee), "[1, 1]");
}

#[test]
fn a_for_loop_emits_a_trigger_for_each_element() {
    let code = program(
        vec![
            LoadConst(0),
            LoadConst(1),
            LoadConst(2),
            BuildArray(3),
            ToIter,
            LoadConst(3),
            IterNext(1),
            BuildTrigger(1),
            AddObject,
            Jump(0),
            PopBlock(1),
        ],
        vec![whole(10), whole(20), whole(30), whole(1)],
        vec![5, 10],
    );
    let r = run(&code);
    assert_eq!(r.result.unwrap(), RunState::Finished);
    let values: Vec<f64> = r.globals.triggers.iter().map(|t| number(t, 1)).collect();
    assert_eq!(values, vec![10.0, 20.0, 30.0]);
    for t in r.globals.triggers.iter() {
        assert_eq!(group_of(t, 57), Group::new(0));
    }
}

fn macro_program(body: Vec<Instruction>) -> Code {
    let mut code = program(vec![PushAnyPattern, MakeMacro(0), Call(0)], vec![], vec![]);
    code.bytecode_funcs.push(BytecodeFunc {
        instructions: body,
        arg_ids: vec![0],
        capture_ids: vec![],
        scoped_var_ids: vec![0],
    });
    code.macro_build_info =
        vec![MacroBuildInfo { func_id: 1, args: vec![("x".to_string(), true, false)] }];
    code.macro_arg_spans = vec![
        ArgSpans { func: 0, index: 1, spans: vec![(5, 6)] },
        ArgSpans { func: 0, index: 2, spans: vec![(7, 8)] },
    ];
    code.name_sets = vec![vec!["".to_string()]];
    code
}

fn push(ctx: &mut Context, g: &mut Globals, v: Value, start: usize) {
    push_value(ctx, g, v.into_stored(CodeArea { source: 3, start, end: start + 1 })).unwrap();
}

#[test]
fn an_argument_that_does_not_match_its_pattern_is_an_error() {
    let code = macro_program(vec![]);
    let r = run_with(&code, |ctx, g| {
        push(ctx, g, Value::Float(1.5f64.to_bits()), 100);
        push(ctx, g, Value::TypeIndicator(ValueType::Int), 200);
    });
    match r.result {
        Err(RuntimeError::PatternMismatch { v, pat, area }) => {
            assert!(matches!(v.value, Value::Float(x) if x == 1.5f64.to_bits()));
            assert!(pat.0.same(&Pattern::Type(ValueType::Int)));
            assert_eq!(pat.1, CodeArea { source: 3, start: 200, end: 201 });
            assert_eq!(area, CodeArea { source: 3, start: 7, end: 8 });
        }
        other => panic!("{:?}", other),
    }
    all_keys_live(&r.globals, &r.contexts);
}

#[test]
fn a_call_enters_the_function_of_the_macro() {
    let code = macro_program(vec![LoadVar(0), Print]);
    let mut globals = Globals::new();
    let mut t = FullContext::single(code.var_count);
    push(t.inner(), &mut globals, Value::Int(4), 100);
    push(t.inner(), &mut globals, Value::TypeIndicator(ValueType::Int), 200);
    let argument = t.inner().stack[0];
    for _ in 0..3 {
        let (next, _, err) = tick(t, &mut globals, &code, &Ieee);
        assert!(err.is_none());
        t = next;
    }
    {
        let ctx = t.inner();
        assert_eq!(ctx.pos, vec![(0, 2, CallId(0)), (1, 0, CallId(1))]);
        assert!(ctx.stack.is_empty());
        assert_eq!(ctx.vars[0].len(), 1);
        assert!(ctx.vars[0][0] != argument);
        assert!(matches!(globals.memory.get(ctx.vars[0][0]).value, Value::Int(4)));
    }
    assert!(globals.calls.contains(CallId(1)));
    assert_eq!(globals.call_counter, CallId(1));
    let state = execute_code(&mut globals, &code, &mut t, &Ieee, 100).unwrap();
    assert_eq!(state, RunState::Finished);
    assert_eq!(globals.printed, vec!["4"]);
    // back in the caller the variable of the macro has no value
    assert!(leaves(&t)[0].vars[0].is_empty());
}

#[test]
fn the_macro_that_was_made_shows_its_parameters() {
    let mut code = macro_program(vec![]);
    code.bytecode_funcs[0].instructions = vec![PushAnyPattern, MakeMacro(0), Print];
    let r = run_with(&code, |ctx, g| {
        push(ctx, g, Value::TypeIndicator(ValueType::Int), 200);
    });
    assert_eq!(r.result.unwrap(), RunState::Finished);
    assert_eq!(r.globals.printed, vec!["(x: @int) -> _ {...}"]);
}

#[test]
fn calling_what_is_no_macro_is_an_error() {
    let mut code = macro_program(vec![]);
    code.bytecode_funcs[0].instructions = vec![LoadConst(0), Call(0)];
    code.constants = vec![whole(1)];
    let r = run(&code);
    match r.result {
        Err(RuntimeError::CannotCall { base, area }) => {
            assert!(matches!(base.value, Value::Int(1)));
            assert_eq!(area, CodeArea { source: 3, start: 10, end: 15 });
        }
        other => panic!("{:?}", other),
    }
}

#[test]
fn a_parameter_without_argument_or_default_is_not_satisfied() {
    let mut code = macro_program(vec![]);
    code.name_sets = vec![vec![]];
    let r = run_with(&code, |ctx, g| {
        push(ctx, g, Value::TypeIndicator(ValueType::Int), 200);
    });
    match r.result {
        Err(RuntimeError::ArgumentNotSatisfied { arg_name, call_area, arg_area }) => {
            assert_eq!(arg_name, "x");
            assert_eq!(call_area, CodeArea { source: 3, start: 20, end: 25 });
            assert_eq!(arg_area, CodeArea { source: 3, start: 5, end: 6 });
        }
        other => panic!("{:?}", other),
    }
}

#[test]
fn too_many_arguments_are_an_error() {
    let mut code = macro_program(vec![]);
    code.name_sets = vec![vec!["".to_string(), "".to_string()]];
    code.macro_arg_spans[1].spans = vec![(7, 8), (9, 10)];
    let r = run_with(&code, |ctx, g| {
        push(ctx, g, Value::Int(1), 100);
        push(ctx, g, Value::Int(2), 110);
        push(ctx, g, Value::TypeIndicator(ValueType::Int), 200);
    });
    match r.result {
        Err(RuntimeError::TooManyArguments { expected, provided, call_area, func }) => {
            assert_eq!(expected, 1);
            assert_eq!(provided, 2);
            assert_eq!(call_area, CodeArea { source: 3, start: 20, end: 25 });
            assert!(matches!(func.value, Value::Macro(_)));
        }
        other => panic!("{:?}", other),
    }
}

#[test]
fn a_named_argument_must_name_a_parameter() {
    let mut code = macro_program(vec![LoadVar(0), Print]);
    code.name_sets = vec![vec!["y".to_string()]];
    let r = run_with(&code, |ctx, g| {
        push(ctx, g, Value::Int(1), 100);
        push(ctx, g, Value::TypeIndicator(ValueType::Int), 200);
    });
    match r.result {
        Err(RuntimeError::UndefinedArgument { name, macr, area }) => {
            assert_eq!(name, "y");
            assert!(matches!(macr.value, Value::Macro(_)));
            assert_eq!(area, CodeArea { source: 3, start: 7, end: 8 });
        }
        other => panic!("{:?}", other),
    }
    code.name_sets = vec![vec!["x".to_string()]];
    let r = run_with(&code, |ctx, g| {
        push(ctx, g, Value::Int(9), 100);
        push(ctx, g, Value::TypeIndicator(ValueType::Int), 200);
    });
    assert_eq!(r.result.unwrap(), RunState::Finished);
    assert_eq!(r.globals.printed[0], "9");
}

fn two_parameters(names: Vec<&str>, second_has_default: bool) -> Code {
    let mut main = vec![PushAnyPattern, MakeMacro(0), Call(0)];
    if second_has_default {
        main.insert(0, LoadConst(0));
    }
    let call = main.len() - 1;
    let mut code = program(main, vec![whole(7)], vec![]);
    code.bytecode_funcs.push(BytecodeFunc {
        instructions: vec![LoadVar(0), Print, LoadVar(1), Print],
        arg_ids: vec![0, 1],
        capture_ids: vec![],
        scoped_var_ids: vec![0, 1],
    });
    code.macro_build_info = vec![MacroBuildInfo {
        func_id: 1,
        // the last parameter stands first
        args: vec![("y".to_string(), false, second_has_default), ("x".to_string(), false, false)],
    }];
    code.macro_arg_spans = vec![
        ArgSpans { func: 0, index: call - 1, spans: vec![(5, 6), (6, 7)] },
        ArgSpans { func: 0, index: call, spans: names.iter().map(|_| (7, 8)).collect() },
    ];
    code.name_sets = vec![names.iter().map(|n| n.to_string()).collect()];
    code
}

#[test]
fn positional_arguments_go_to_the_parameters_in_order() {
    let code = two_parameters(vec!["", ""], false);
    let r = run_with(&code, |ctx, g| {
        push(ctx, g, Value::Int(1), 100);
        push(ctx, g, Value::Int(2), 110);
    });
    assert_eq!(r.result.unwrap(), RunState::Finished);
    assert_eq!(r.globals.printed, vec!["1", "2"]);
}

#[test]
fn the_first_name_is_that_of_the_topmost_argument() {
    let code = two_parameters(vec!["y", ""], false);
    let r = run_with(&code, |ctx, g| {
        push(ctx, g, Value::Int(1), 100);
        push(ctx, g, Value::Int(2), 110);
    });
    assert_eq!(r.result.unwrap(), RunState::Finished);
    assert_eq!(r.globals.printed, vec!["1", "2"]);
    let code = two_parameters(vec!["", "y"], false);
    let r = run_with(&code, |ctx, g| {
        push(ctx, g, Value::Int(1), 100);
        push(ctx, g, Value::Int(2), 110);
    });
    assert_eq!(r.result.unwrap(), RunState::Finished);
    assert_eq!(r.globals.printed, vec!["2", "1"]);
}

#[test]
fn a_named_argument_wins_over_a_positional_one() {
    let code = two_parameters(vec!["x", ""], false);
    let r = run_with(&code, |ctx, g| {
        push(ctx, g, Value::Int(1), 100);
        push(ctx, g, Value::Int(2), 110);
    });
    match r.result {
        Err(RuntimeError::ArgumentNotSatisfied { arg_name, .. }) => assert_eq!(arg_name, "y"),
        other => panic!("{:?}", other),
    }
    let code = two_parameters(vec!["x", "", ""], false);
    let r = run_with(&code, |ctx, g| {
        push(ctx, g, Value::Int(1), 100);
        push(ctx, g, Value::Int(2), 110);
        push(ctx, g, Value::Int(3), 120);
    });
    assert_eq!(r.result.unwrap(), RunState::Finished);
    assert_eq!(r.globals.printed, vec!["3", "2"]);
}

#[test]
fn of_two_arguments_with_one_name_the_first_stays() {
    let code = two_parameters(vec!["x", "x", "y"], false);
    let r = run_with(&code, |ctx, g| {
        push(ctx, g, Value::Int(1), 100);
        push(ctx, g, Value::Int(2), 110);
        push(ctx, g, Value::Int(3), 120);
    });
    assert_eq!(r.result.unwrap(), RunState::Finished);
    assert_eq!(r.globals.printed, vec!["3", "1"]);
}

#[test]
fn a_parameter_without_argument_gets_its_default() {
    let code = two_parameters(vec![""], true);
    let r = run_with(&code, |ctx, g| {
        push(ctx, g, Value::Int(3), 100);
    });
    assert_eq!(r.result.unwrap(), RunState::Finished);
    assert_eq!(r.globals.printed, vec!["3", "7"]);
    let code = two_parameters(vec!["", ""], true);
    let r = run_with(&code, |ctx, g| {
        push(ctx, g, Value::Int(3), 100);
        push(ctx, g, Value::Int(4), 110);
    });
    assert_eq!(r.result.unwrap(), RunState::Finished);
    assert_eq!(r.globals.printed, vec!["3", "4"]);
}

#[test]
fn a_call_with_too_few_values_on_the_stack_is_malformed() {
    let code = two_parameters(vec!["", ""], false);
    let r = run_with(&code, |ctx, g| {
        push(ctx, g, Value::Int(1), 100);
    });
    assert!(matches!(r.result, Err(RuntimeError::MalformedBytecode { func: 0, index: 2 })));
}

#[test]
fn a_macro_sees_the_slots_that_it_captured() {
    let mut code = program(vec![PushAnyPattern, MakeMacro(0), Call(0)], vec![], vec![]);
    code.bytecode_funcs.push(BytecodeFunc {
        instructions: vec![LoadVar(2), Print],
        arg_ids: vec![],
        capture_ids: vec![2],
        scoped_var_ids: vec![0],
    });
    code.macro_build_info = vec![MacroBuildInfo { func_id: 1, args: vec![] }];
    code.macro_arg_spans = vec![
        ArgSpans { func: 0, index: 1, spans: vec![] },
        ArgSpans { func: 0, index: 2, spans: vec![] },
    ];
    code.name_sets = vec![vec![]];
    let mut globals = Globals::new();
    let mut t = FullContext::single(code.var_count);
    push(t.inner(), &mut globals, Value::Int(5), 100);
    let captured = t.inner().stack.pop().unwrap();
    t.inner().vars[2].push(captured);
    for _ in 0..3 {
        let (next, _, err) = tick(t, &mut globals, &code, &Ieee);
        assert!(err.is_none());
        t = next;
    }
    {
        let ctx = t.inner();
        // the variable that the function declares has a new, empty value
        assert_eq!(ctx.vars[0].len(), 1);
        assert!(matches!(globals.memory.get(ctx.vars[0][0]).value, Value::Empty));
        // the capture variable stands for the captured slot itself
        assert_eq!(ctx.vars[2], vec![captured, captured]);
    }
    let state = execute_code(&mut globals, &code, &mut t, &Ieee, 100).unwrap();
    assert_eq!(state, RunState::Finished);
    assert_eq!(globals.printed, vec!["5"]);
    assert_eq!(leaves(&t)[0].vars[2], vec![captured]);
}

#[test]
fn a_thousand_arbitrary_groups_exceed_the_limit() {
    let mut instructions = vec![];
    for _ in 0..1000 {
        instructions.extend([LoadConst(0), LoadArbitraryId(IdClass::Group), BuildObject(1), AddObject]);
    }
    let code = program(instructions, vec![whole(51)], vec![]);
    let r = run(&code);
    assert_eq!(r.result.unwrap(), RunState::Finished);
    assert_eq!(r.globals.objects.len(), 1000);
    assert_eq!(r.globals.arbitrary_ids.group, 1000);
    let objects: Vec<GdObj> = r.globals.objects.iter().map(|o| o.copy()).collect();
    match append_objects(objects, "", &Ieee) {
        Err(RuntimeError::LevelLimitExceeded { class, actual, max }) => {
            assert_eq!(class, IdClass::Group);
            assert_eq!(actual, 1000);
            assert_eq!(max, 999);
        }
        other => panic!("{:?}", other),
    }
}

#[test]
fn arbitrary_ids_that_a_program_loads_are_distinct() {
    let code = program(
        vec![
            LoadArbitraryId(IdClass::Group),
            LoadArbitraryId(IdClass::Color),
            LoadArbitraryId(IdClass::Group),
            LoadArbitraryId(IdClass::Block),
            LoadArbitraryId(IdClass::Item),
            LoadArbitraryId(IdClass::Group),
            BuildArray(6),
            Print,
        ],
        vec![],
        vec![],
    );
    let mut globals = Globals::new();
    let mut t = FullContext::single(0);
    for _ in 0..6 {
        t = tick(t, &mut globals, &code, &Ieee).0;
    }
    let stack = t.inner().stack.clone();
    let ids: Vec<Value> = stack.iter().map(|k| globals.memory.get(*k).value.copy()).collect();
    assert!(matches!(ids[0], Value::Group(Id::Arbitrary(0))));
    assert!(matches!(ids[1], Value::Color(Id::Arbitrary(0))));
    assert!(matches!(ids[2], Value::Group(Id::Arbitrary(1))));
    assert!(matches!(ids[3], Value::Block(Id::Arbitrary(0))));
    assert!(matches!(ids[4], Value::Item(Id::Arbitrary(0))));
    assert!(matches!(ids[5], Value::Group(Id::Arbitrary(2))));
    execute_code(&mut globals, &code, &mut t, &Ieee, 100).unwrap();
    assert_eq!(globals.printed, vec!["[?g, ?c, ?g, ?b, ?i, ?g]"]);
}

#[test]
fn variables_hold_deep_copies() {
    let code = program(
        vec![
            LoadConst(0),
            BuildArray(1),
            SetVar(0),
            LoadVar(0),
            LoadVar(0),
            Plus,
            SetVar(1),
            LoadVar(1),
            Print,
            LoadVar(0),
            Print,
        ],
        vec![whole(7)],
        vec![],
    );
    let r = run_with(&code, |ctx, g| {
        assert!(ctx.push_vars(&[0, 1], &program(vec![], vec![], vec![]), g));
    });
    assert_eq!(r.result.unwrap(), RunState::Finished);
    assert_eq!(r.globals.printed, vec!["[7, 7]", "[7]"]);
    all_keys_live(&r.globals, &r.contexts);
}

#[test]
fn a_variable_without_value_cannot_be_used() {
    let code = program(vec![LoadVar(0)], vec![], vec![]);
    assert!(matches!(
        run(&code).result,
        Err(RuntimeError::MalformedBytecode { func: 0, index: 0 })
    ));
    let code = program(vec![PushEmpty, SetVar(9)], vec![], vec![]);
    assert!(matches!(
        run(&code).result,
        Err(RuntimeError::MalformedBytecode { func: 0, index: 1 })
    ));
}

#[test]
fn an_error_goes_to_the_handler_of_the_try_block() {
    let code = program(
        vec![PushTry(0), LoadConst(0), LoadConst(1), Minus, LoadConst(0), Print, LoadConst(2), Print],
        vec![whole(1), text("a"), whole(7)],
        vec![6],
    );
    let r = run(&code);
    assert_eq!(r.result.unwrap(), RunState::Finished);
    assert_eq!(r.globals.printed, vec!["7"]);
}

#[test]
fn an_error_without_a_try_block_ends_the_run() {
    let code = program(
        vec![LoadConst(0), LoadConst(1), Minus, LoadConst(2), Print],
        vec![whole(1), text("a"), whole(7)],
        vec![],
    );
    let r = run(&code);
    match r.result {
        Err(RuntimeError::InvalidOperands { a, b, op, area }) => {
            assert!(matches!(a.value, Value::Int(1)));
            assert!(matches!(&b.value, Value::String(t) if t == "a"));
            assert_eq!(op, "-");
            assert_eq!(area, CodeArea { source: 3, start: 20, end: 25 });
        }
        other => panic!("{:?}", other),
    }
    assert!(r.globals.printed.is_empty());
}

#[test]
fn an_error_closes_the_blocks_inside_the_try_block() {
    let code = program(
        vec![
            PushTry(0),
            LoadConst(0),
            BuildArray(1),
            ToIter,
            LoadConst(0),
            Not,
            PushEmpty,
            PopBlock(1),
            LoadConst(1),
            Print,
        ],
        vec![whole(1), text("caught")],
        vec![8],
    );
    let r = run(&code);
    assert_eq!(r.result.unwrap(), RunState::Finished);
    assert_eq!(r.globals.printed, vec!["caught"]);
    assert!(leaves(&r.contexts)[0].block_stack.is_empty());
}

#[test]
fn malformed_bytecode_is_caught_by_no_try_block() {
    let code = program(vec![PushTry(0), Plus, PushEmpty], vec![], vec![2]);
    assert!(matches!(
        run(&code).result,
        Err(RuntimeError::MalformedBytecode { func: 0, index: 1 })
    ));
    let code = program(vec![LoadConst(3)], vec![], vec![]);
    assert!(matches!(
        run(&code).result,
        Err(RuntimeError::MalformedBytecode { func: 0, index: 0 })
    ));
    let code = program(vec![Jump(3)], vec![], vec![]);
    assert!(matches!(
        run(&code).result,
        Err(RuntimeError::MalformedBytecode { func: 0, index: 0 })
    ));
}

#[test]
fn unwind_finds_the_innermost_try() {
    let g = Globals::new();
    let code = program(vec![PushEmpty; 10], vec![], vec![]);
    let mut c = Context::new(0);
    c.block_stack.push(Block::Try(3));
    c.block_stack.push(Block::Try(5));
    let error = || RuntimeError::UndefinedType { name: "t".to_string(), area: CodeArea::new(0, 0, 0) };
    assert!(unwind(&mut c, error(), &code, &g).is_none());
    assert_eq!(c.pos, vec![(0, 5, CallId(0))]);
    assert_eq!(c.block_stack.len(), 1);
    assert!(unwind(&mut c, RuntimeError::MemoryExhausted, &code, &g).is_some());
    assert_eq!(c.block_stack.len(), 1);
    assert!(unwind(&mut c, error(), &code, &g).is_none());
    assert_eq!(c.pos, vec![(0, 3, CallId(0))]);
    assert!(matches!(unwind(&mut c, error(), &code, &g), Some(RuntimeError::UndefinedType { .. })));
}

#[test]
fn a_false_condition_jumps() {
    let code = |c: Constant| {
        program(
            vec![LoadConst(0), JumpIfFalse(0), LoadConst(1), Print, LoadConst(2), Print],
            vec![c, whole(1), whole(2)],
            vec![4],
        )
    };
    assert_eq!(run(&code(Constant::Bool(false))).globals.printed, vec!["2"]);
    assert_eq!(run(&code(Constant::Bool(true))).globals.printed, vec!["1", "2"]);
    match run(&code(whole(0))).result {
        Err(RuntimeError::CannotConvert { a, to }) => {
            assert!(matches!(a.value, Value::Int(0)));
            assert_eq!(to, ValueType::Bool);
        }
        other => panic!("{:?}", other),
    }
}

#[test]
fn operators_take_their_operands_in_order() {
    let bin = |op: Instruction, a: Constant, b: Constant| {
        let code = program(vec![LoadConst(0), LoadConst(1), op, Print], vec![a, b], vec![]);
        let r = run(&code);
        r.result.unwrap();
        r.globals.printed[0].clone()
    };
    assert_eq!(bin(Plus, whole(7), whole(2)), "9");
    assert_eq!(bin(Minus, whole(7), whole(2)), "5");
    assert_eq!(bin(Mult, whole(7), whole(2)), "14");
    assert_eq!(bin(Div, whole(7), whole(2)), "3");
    assert_eq!(bin(Mod, whole(7), whole(2)), "1");
    assert_eq!(bin(Pow, whole(7), whole(2)), "49");
    assert_eq!(bin(Greater, whole(7), whole(2)), "true");
    assert_eq!(bin(GreaterEq, whole(7), whole(2)), "true");
    assert_eq!(bin(Lesser, whole(7), whole(2)), "false");
    assert_eq!(bin(LesserEq, whole(7), whole(2)), "false");
    assert_eq!(bin(Instruction::Eq, whole(7), Constant::Float(7.0f64.to_bits())), "true");
    assert_eq!(bin(NotEq, whole(7), whole(2)), "true");
    assert_eq!(bin(Plus, text("a"), text("b")), "ab");
    assert_eq!(bin(Mult, whole(2), text("ab")), "abab");
    assert_eq!(bin(Plus, whole(1), Constant::Float(0.5f64.to_bits())), "1.5");
    let un = |op: Instruction, a: Constant| {
        let code = program(vec![LoadConst(0), op, Print], vec![a], vec![]);
        run(&code).globals.printed[0].clone()
    };
    assert_eq!(un(Negate, whole(7)), "-7");
    assert_eq!(un(Not, Constant::Bool(false)), "true");
}

#[test]
fn is_tests_the_tag() {
    let code = program(vec![LoadConst(0), PushAnyPattern, Is, Print], vec![whole(1)], vec![]);
    assert_eq!(run(&code).globals.printed, vec!["true"]);
    let r = run_with(&program(vec![Is, Print], vec![], vec![]), |ctx, g| {
        push(ctx, g, Value::Int(1), 0);
        push(ctx, g, Value::TypeIndicator(ValueType::Float), 0);
    });
    assert_eq!(r.globals.printed, vec!["false"]);
}

#[test]
fn division_by_zero_is_an_error_every_time() {
    for op in [Div, Mod] {
        for a in [0, 1, -1, i64::MAX, i64::MIN] {
            let code = program(vec![LoadConst(0), LoadConst(1), op], vec![whole(a), whole(0)], vec![]);
            assert!(matches!(run(&code).result, Err(RuntimeError::InvalidOperands { .. })));
        }
    }
}

#[test]
fn a_dictionary_gives_the_first_name_the_topmost_value() {
    let mut code = program(
        vec![LoadConst(0), LoadConst(1), BuildDict(0), Print],
        vec![whole(1), whole(2)],
        vec![],
    );
    code.name_sets = vec![vec!["a".to_string(), "b".to_string()]];
    assert_eq!(run(&code).globals.printed, vec!["{a: 2, b: 1}"]);
    code.name_sets = vec![vec!["a".to_string(), "a".to_string()]];
    assert_eq!(run(&code).globals.printed, vec!["{a: 1}"]);
    code.name_sets = vec![vec![]];
    code.bytecode_funcs[0].instructions = vec![BuildDict(0), Print];
    assert_eq!(run(&code).globals.printed, vec!["{}"]);
    code.bytecode_funcs[0].instructions = vec![BuildDict(5)];
    assert!(matches!(run(&code).result, Err(RuntimeError::MalformedBytecode { .. })));
}

#[test]
fn a_dictionary_is_walked_in_the_order_of_its_fields() {
    let mut code = program(
        vec![
            LoadConst(0),
            LoadConst(1),
            BuildDict(0),
            ToIter,
            IterNext(1),
            Print,
            Jump(0),
            PopBlock(1),
        ],
        vec![whole(1), whole(2)],
        vec![4, 7],
    );
    code.name_sets = vec![vec!["x".to_string(), "y".to_string()]];
    let r = run(&code);
    assert_eq!(r.result.unwrap(), RunState::Finished);
    assert_eq!(r.globals.printed, vec!["[x, 2]", "[y, 1]"]);
}

#[test]
fn a_text_is_walked_character_by_character() {
    let code = program(
        vec![LoadConst(0), ToIter, IterNext(1), Print, Jump(0), PopBlock(1)],
        vec![text("héy")],
        vec![2, 5],
    );
    let r = run(&code);
    assert_eq!(r.result.unwrap(), RunState::Finished);
    assert_eq!(r.globals.printed, vec!["h", "é", "y"]);
    assert!(leaves(&r.contexts)[0].block_stack.is_empty());
}

#[test]
fn what_cannot_be_walked_is_an_error() {
    let code = program(vec![LoadConst(0), ToIter], vec![whole(1)], vec![]);
    assert!(matches!(run(&code).result, Err(RuntimeError::CannotIterate { .. })));
    let code = program(vec![IterNext(0)], vec![], vec![0]);
    assert!(matches!(run(&code).result, Err(RuntimeError::MalformedBytecode { .. })));
    let code = program(vec![PushTry(0), IterNext(0)], vec![], vec![0]);
    assert!(matches!(run(&code).result, Err(RuntimeError::MalformedBytecode { .. })));
}

#[test]
fn maybes_wrap_deep_copies() {
    let code = program(
        vec![LoadConst(0), WrapMaybe, Print, PushNone, Print],
        vec![whole(3)],
        vec![],
    );
    assert_eq!(run(&code).globals.printed, vec!["3?", "?"]);
}

#[test]
fn an_index_out_of_range_is_an_error() {
    let index = |i: i64| {
        let code = program(
            vec![LoadConst(0), LoadConst(1), LoadConst(2), BuildArray(3), LoadConst(3), Index, Print],
            vec![whole(10), whole(20), whole(30), whole(i)],
            vec![],
        );
        run(&code)
    };
    assert_eq!(index(0).globals.printed, vec!["10"]);
    assert_eq!(index(2).globals.printed, vec!["30"]);
    for i in [3, 100, -1, i64::MIN, i64::MAX] {
        match index(i).result {
            Err(RuntimeError::IndexOutOfRange { index, length, area }) => {
                assert_eq!(index, i);
                assert_eq!(length, 3);
                assert_eq!(area, CodeArea { source: 3, start: 40, end: 45 });
            }
            other => panic!("{:?}", other),
        }
    }
    let code = program(vec![LoadConst(0), LoadConst(0), Index], vec![whole(1)], vec![]);
    match run(&code).result {
        Err(RuntimeError::TypeMismatch { expected, .. }) => assert_eq!(expected, "array"),
        other => panic!("{:?}", other),
    }
    let code = program(
        vec![LoadConst(0), BuildArray(1), LoadConst(1), Index],
        vec![whole(1), text("0")],
        vec![],
    );
    match run(&code).result {
        Err(RuntimeError::TypeMismatch { expected, .. }) => assert_eq!(expected, "integer"),
        other => panic!("{:?}", other),
    }
}

#[test]
fn an_index_out_of_range_can_be_caught() {
    let code = program(
        vec![PushTry(0), LoadConst(0), BuildArray(1), LoadConst(1), Index, Print, LoadConst(2), Print],
        vec![whole(1), whole(5), text("no such element")],
        vec![6],
    );
    let r = run(&code);
    assert_eq!(r.result.unwrap(), RunState::Finished);
    assert_eq!(r.globals.printed, vec!["no such element"]);
}

#[test]
fn macro_patterns_are_made_of_patterns() {
    let code = program(
        vec![PushAnyPattern, PushAnyPattern, PushAnyPattern, MakeMacroPattern(2), Print],
        vec![],
        vec![],
    );
    assert_eq!(run(&code).globals.printed, vec!["(_, _) -> _"]);
    let r = run_with(&program(vec![MakeMacroPattern(2), Print], vec![], vec![]), |ctx, g| {
        push(ctx, g, Value::TypeIndicator(ValueType::Int), 0);
        push(ctx, g, Value::Pattern(Pattern::Any), 0);
        push(ctx, g, Value::TypeIndicator(ValueType::Bool), 0);
    });
    assert_eq!(r.globals.printed, vec!["(@int, _) -> @bool"]);
    let code = program(vec![LoadConst(0), PushAnyPattern, MakeMacroPattern(1)], vec![whole(1)], vec![]);
    assert!(matches!(run(&code).result, Err(RuntimeError::CannotConvert { .. })));
}

#[test]
fn no_type_can_be_loaded() {
    let code = program(vec![LoadType(0)], vec![], vec![]);
    match run(&code).result {
        Err(RuntimeError::UndefinedType { name, area }) => {
            assert_eq!(name, "thing");
            assert_eq!(area, CodeArea { source: 3, start: 0, end: 5 });
        }
        other => panic!("{:?}", other),
    }
}

#[test]
fn reserved_instructions_do_nothing() {
    let code = program(
        vec![MergeContexts, TypeDef(0), Impl(0), Instance(0), PushEmpty, PopTop, PopTop, LoadConst(0), Print],
        vec![whole(1)],
        vec![],
    );
    let r = run(&code);
    assert_eq!(r.result.unwrap(), RunState::Finished);
    assert_eq!(r.globals.printed, vec!["1"]);
    assert!(r.globals.triggers.is_empty() && r.globals.objects.is_empty());
}

#[test]
fn calling_a_trigger_function_emits_a_spawn_trigger() {
    let code = program(
        vec![EnterTriggerFunction(0), YeetContext, TriggerFuncCall],
        vec![],
        vec![2],
    );
    let r = run(&code);
    assert_eq!(r.result.unwrap(), RunState::Finished);
    assert_eq!(r.globals.triggers.len(), 1);
    let t = &r.globals.triggers[0];
    assert_eq!(number(t, 1), 1268.0);
    assert_eq!(group_of(t, 51), Group { id: 0, arbitrary: true });
    assert_eq!(group_of(t, 57), Group { id: 0, arbitrary: false });
    assert_eq!(serialize_obj(t.copy(), &Ieee), "1,1268,51,0,57,0.1001,108,1;");
    let code = program(vec![LoadConst(0), TriggerFuncCall], vec![whole(1)], vec![]);
    match run(&code).result {
        Err(RuntimeError::TypeMismatch { expected, .. }) => assert_eq!(expected, "trigger function"),
        other => panic!("{:?}", other),
    }
}

#[test]
fn objects_and_triggers_go_to_their_buffers() {
    let code = program(
        vec![
            LoadConst(0),
            LoadConst(1),
            LoadConst(2),
            LoadConst(3),
            LoadConst(4),
            LoadConst(5),
            LoadConst(6),
            LoadConst(7),
            BuildObject(4),
            AddObject,
        ],
        vec![
            whole(1),
            Constant::Float(1.5f64.to_bits()),
            whole(2),
            text("t"),
            whole(3),
            Constant::Bool(true),
            whole(65536 + 57),
            whole(12),
        ],
        vec![],
    );
    let r = run(&code);
    assert_eq!(r.result.unwrap(), RunState::Finished);
    assert!(r.globals.triggers.is_empty());
    let o = &r.globals.objects[0];
    assert_eq!(o.mode, ObjectMode::Object);
    assert_eq!(number(o, 1), 1.5);
    assert!(param(o, 2).same(&ObjParam::Text("t".to_string())));
    assert!(param(o, 3).same(&ObjParam::Bool(true)));
    // a key is taken by its low 16 bits
    assert_eq!(number(o, 57), 12.0);
    assert_eq!(serialize_obj(o.copy(), &Ieee), "1,1.500,2,t,3,1,57,1001,;");
}

#[test]
fn of_two_pairs_with_one_key_the_lower_stays() {
    let code = program(
        vec![LoadConst(0), LoadConst(1), LoadConst(0), LoadConst(2), BuildObject(2), AddObject],
        vec![whole(1), whole(100), whole(200)],
        vec![],
    );
    let r = run(&code);
    assert_eq!(number(&r.globals.objects[0], 1), 100.0);
    assert_eq!(r.globals.objects[0].params.len(), 1);
}

#[test]
fn what_is_no_parameter_is_an_error() {
    let code = program(vec![LoadConst(0), LoadConst(1), BuildObject(1)], vec![text("k"), whole(1)], vec![]);
    match run(&code).result {
        Err(RuntimeError::TypeMismatch { v, expected, .. }) => {
            assert!(matches!(&v.value, Value::String(t) if t == "k"));
            assert_eq!(expected, "integer");
        }
        other => panic!("{:?}", other),
    }
    let code = program(vec![LoadConst(0), PushEmpty, BuildObject(1)], vec![whole(1)], vec![]);
    match run(&code).result {
        Err(RuntimeError::TypeMismatch { v, expected, .. }) => {
            assert!(matches!(v.value, Value::Empty));
            assert_eq!(expected, "valid object property value");
        }
        other => panic!("{:?}", other),
    }
    let code = program(vec![LoadConst(0), AddObject], vec![whole(1)], vec![]);
    match run(&code).result {
        Err(RuntimeError::TypeMismatch { expected, .. }) => assert_eq!(expected, "obj or trigger"),
        other => panic!("{:?}", other),
    }
    let code = program(vec![LoadConst(0), BuildObject(1)], vec![whole(1)], vec![]);
    assert!(matches!(run(&code).result, Err(RuntimeError::MalformedBytecode { .. })));
}

#[test]
fn an_arrow_statement_splits_the_context() {
    let code = program(
        vec![EnterArrowStatement(0), LoadConst(0), Print, YeetContext, LoadConst(1), Print],
        vec![text("inside"), text("outside")],
        vec![4],
    );
    let r = run(&code);
    assert_eq!(r.result.unwrap(), RunState::Finished);
    assert_eq!(r.globals.printed, vec!["outside", "inside"]);
    assert_eq!(r.globals.arbitrary_ids.group, 0);
}

#[test]
fn a_context_that_ends_is_taken_out_of_the_tree() {
    let code = program(
        vec![EnterArrowStatement(0), YeetContext, PushEmpty, PushEmpty, ReturnValue],
        vec![],
        vec![2],
    );
    let r = run(&code);
    assert_eq!(r.result.unwrap(), RunState::Finished);
    let ls = leaves(&r.contexts);
    assert_eq!(ls.len(), 1);
    assert_eq!(ls[0].id, "Oa");
    assert!(ls[0].returned.is_none());
    assert_eq!(ls[0].pos, vec![(0, 4, CallId(0))]);
    assert_eq!(ls[0].stack.len(), 2);
}

#[test]
fn a_return_wins_over_running_off_the_end() {
    let code = program(vec![ReturnValue], vec![], vec![]);
    let mut globals = Globals::new();
    let mut implicit = Context::new(0);
    implicit.id = "implicit".to_string();
    implicit.returned = Some(ReturnType::Implicit);
    let mut explicit = Context::new(0);
    explicit.id = "explicit".to_string();
    let mut t = FullContext::Split(
        Box::new(FullContext::Single(implicit)),
        Box::new(FullContext::Single(explicit)),
    );
    assert!(t.has_runnable());
    assert!(!t.has_explicit());
    let state = execute_code(&mut globals, &code, &mut t, &Ieee, 10).unwrap();
    assert_eq!(state, RunState::Finished);
    let ls = leaves(&t);
    assert_eq!(ls.len(), 1);
    assert_eq!(ls[0].id, "explicit");
    assert!(ls[0].returned.is_none());
}

#[test]
fn without_a_return_the_contexts_that_ran_off_the_end_stay() {
    let code = program(vec![], vec![], vec![]);
    let mut globals = Globals::new();
    let mut implicit = Context::new(0);
    implicit.returned = Some(ReturnType::Implicit);
    let mut t = FullContext::Single(implicit);
    assert!(!t.has_runnable());
    let state = execute_code(&mut globals, &code, &mut t, &Ieee, 10).unwrap();
    assert_eq!(state, RunState::Finished);
    let ls = leaves(&t);
    assert_eq!(ls.len(), 1);
    assert!(ls[0].returned.is_none());
    assert_eq!(ls[0].pos.len(), 1);
}

#[test]
fn yeet_implicit_and_clear_returns_touch_every_leaf() {
    let mut a = Context::new(0);
    a.returned = Some(ReturnType::Implicit);
    let mut b = Context::new(0);
    b.returned = Some(ReturnType::Explicit);
    let c = Context::new(0);
    let t = FullContext::Split(
        Box::new(FullContext::Single(a)),
        Box::new(FullContext::Split(
            Box::new(FullContext::Single(b)),
            Box::new(FullContext::Single(c)),
        )),
    );
    assert!(t.has_explicit());
    let t = t.yeet_implicit();
    {
        let ls = leaves(&t);
        assert!(ls[0].pos.is_empty());
        assert_eq!(ls[1].pos.len(), 1);
        assert_eq!(ls[2].pos.len(), 1);
        assert_eq!(ls[0].returned, Some(ReturnType::Implicit));
    }
    let t = t.clear_returns();
    for l in leaves(&t) {
        assert!(l.returned.is_none());
    }
}

#[test]
fn a_run_stops_when_its_ticks_are_used_up() {
    let code = program(vec![Jump(0)], vec![], vec![0]);
    let mut globals = Globals::new();
    let mut t = FullContext::single(0);
    assert_eq!(execute_code(&mut globals, &code, &mut t, &Ieee, 50).unwrap(), RunState::OutOfTicks);
    assert!(t.has_runnable());
    assert_eq!(execute_code(&mut globals, &code, &mut t, &Ieee, 0).unwrap(), RunState::OutOfTicks);
    let code = program(vec![PushEmpty, PushEmpty], vec![], vec![]);
    let mut t = FullContext::single(0);
    assert_eq!(execute_code(&mut globals, &code, &mut t, &Ieee, 1).unwrap(), RunState::OutOfTicks);
    assert_eq!(leaves(&t)[0].pos, vec![(0, 1, CallId(0))]);
    assert_eq!(execute_code(&mut globals, &code, &mut t, &Ieee, 1).unwrap(), RunState::Finished);
}

#[test]
fn one_tick_advances_every_context_by_one_instruction() {
    let code = program(vec![PushEmpty, PushEmpty, PushEmpty], vec![], vec![]);
    let mut globals = Globals::new();
    let mut behind = Context::new(0);
    behind.pos = vec![(0, 1, CallId(0))];
    let ahead = Context::new(0);
    let mut done = Context::new(0);
    done.returned = Some(ReturnType::Explicit);
    let t = FullContext::Split(
        Box::new(FullContext::Single(ahead)),
        Box::new(FullContext::Split(
            Box::new(FullContext::Single(behind)),
            Box::new(FullContext::Single(done)),
        )),
    );
    let (t, progressed, err) = tick(t, &mut globals, &code, &Ieee);
    assert!(progressed && err.is_none());
    let ls = leaves(&t);
    assert_eq!(ls[0].pos, vec![(0, 1, CallId(0))]);
    assert_eq!(ls[1].pos, vec![(0, 2, CallId(0))]);
    assert_eq!(ls[2].pos, vec![(0, 0, CallId(0))]);
    assert_eq!(ls[0].stack.len(), 1);
    assert_eq!(ls[2].stack.len(), 0);
    assert_eq!(globals.memory.len(), 2);
}

#[test]
fn a_step_gives_one_leaf_or_two() {
    let code = program(vec![PushEmpty, PushEmpty, Split], vec![], vec![]);
    let mut globals = Globals::new();
    let (t, err) = step(Context::new(0), &mut globals, &code, &Ieee);
    assert!(err.is_none());
    assert_eq!(leaves(&t).len(), 1);
    let mut c = Context::new(0);
    c.pos = vec![(0, 2, CallId(0))];
    let (t, err) = step(c, &mut globals, &code, &Ieee);
    assert!(matches!(err, Some(RuntimeError::MalformedBytecode { func: 0, index: 2 })));
    assert_eq!(leaves(&t).len(), 1);
    let mut c = Context::new(0);
    c.pos = vec![(0, 9, CallId(0))];
    let (t, err) = step(c, &mut globals, &code, &Ieee);
    assert!(err.is_none());
    assert!(leaves(&t)[0].pos.is_empty());
}

#[test]
fn an_instruction_says_how_the_context_goes_on() {
    let code = program(vec![PushEmpty; 4], vec![whole(1)], vec![3]);
    let mut g = Globals::new();
    let mut c = Context::new(0);
    let fl = Ieee;
    assert!(matches!(run_instruction(PushEmpty, &mut c, &mut g, &code, &fl, 0, 0), Ok(Flow::Next)));
    assert!(matches!(run_instruction(Jump(0), &mut c, &mut g, &code, &fl, 0, 0), Ok(Flow::Goto(3))));
    assert!(matches!(run_instruction(ReturnValue, &mut c, &mut g, &code, &fl, 0, 0), Ok(Flow::Halt)));
    assert_eq!(c.returned, Some(ReturnType::Explicit));
    assert_eq!(c.pos.len(), 1);
    assert!(matches!(run_instruction(YeetContext, &mut c, &mut g, &code, &fl, 0, 0), Ok(Flow::Halt)));
    assert!(c.pos.is_empty());
    let mut c = Context::new(0);
    match run_instruction(EnterArrowStatement(0), &mut c, &mut g, &code, &fl, 0, 1) {
        Ok(Flow::Fork { inside, outside_at, inside_at }) => {
            assert_eq!((outside_at, inside_at), (3, 2));
            assert_eq!(inside.id, "Ob");
            assert_eq!(c.id, "Oa");
        }
        other => panic!("{:?}", other),
    }
}

#[test]
fn running_a_program_again_gives_the_same_output() {
    let make = || {
        program(
            vec![
                EnterTriggerFunction(0),
                LoadConst(0),
                LoadArbitraryId(IdClass::Group),
                BuildTrigger(1),
                AddObject,
                LoadConst(1),
                Print,
                YeetContext,
                TriggerFuncCall,
                LoadConst(2),
                LoadConst(2),
                Split,
                Print,
            ],
            vec![whole(51), text("in"), whole(3)],
            vec![8],
        )
    };
    let output = || {
        let r = run(&make());
        r.result.unwrap();
        let triggers: Vec<GdObj> = r.globals.triggers.iter().map(|t| t.copy()).collect();
        (append_objects(triggers, "57,1.2.4", &Ieee).unwrap(), r.globals.printed.clone())
    };
    let first = output();
    let second = output();
    assert_eq!(first, second);
    assert_eq!(first.1, vec!["3", "3", "in"]);
    assert_eq!((first.0).0, "1,1268,51,3,57,0.1001,108,1;51,5,57,3.1001,108,1;");
}

#[test]
fn every_key_that_a_context_holds_is_live_after_a_run() {
    let mut code = program(
        vec![
            LoadConst(0),
            LoadConst(1),
            BuildArray(2),
            SetVar(0),
            LoadVar(0),
            WrapMaybe,
            LoadVar(0),
            LoadConst(0),
            BuildDict(0),
            LoadConst(0),
            LoadConst(1),
            Split,
            PushNone,
            LoadVar(0),
            ToIter,
            IterNext(0),
            ReturnValue,
        ],
        vec![whole(1), text("two")],
        vec![16],
    );
    code.name_sets = vec![vec!["a".to_string(), "b".to_string()]];
    let r = run_with(&code, |ctx, g| {
        assert!(ctx.push_vars(&[0], &program(vec![], vec![], vec![]), g));
    });
    assert_eq!(r.result.as_ref().unwrap(), &RunState::Finished);
    assert_eq!(leaves(&r.contexts).len(), 2);
    all_keys_live(&r.globals, &r.contexts);
    for c in leaves(&r.contexts) {
        assert_eq!(c.stack.len(), 5);
        for b in c.block_stack.iter() {
            if let Block::For(spwn::contexts::ValueIter::Array(keys, at)) = b {
                assert_eq!(*at, 1);
                for k in keys {
                    assert!(r.globals.memory.has(*k));
                }
            }
        }
    }
}
