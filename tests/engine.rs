use jk::{
    print_line,
    render, run_array_action, run_object_action,
    apply, execute, make_builtin_funcs, parse, run_foreach_action, run_forself_action, select,
    ActionError, ActionExpr, ActionMode, ArraySlice, Builtin, Effect, EvalError, Function, JkError,
    Jop, JsonNumber, JsonValue, ObjectSelector, QueryError, Runtime,
};

fn num(i: i64) -> JsonValue {
    JsonValue::Number(JsonNumber::Int(i))
}

fn text(s: &str) -> JsonValue {
    JsonValue::String(s.to_string())
}

fn obj(entries: Vec<(&str, JsonValue)>) -> JsonValue {
    JsonValue::Object(entries.into_iter().map(|(k, v)| (k.to_string(), v)).collect())
}

fn print(args: Vec<JsonValue>) -> Effect {
    Effect { func: Builtin::Print, args }
}

fn run(program: &str, input: JsonValue) -> (Vec<Effect>, Result<(), JkError>) {
    let script = parse(program).expect("program parses");
    let funcs = make_builtin_funcs();
    let mut effects = Vec::new();
    let r = execute(&script, &input, &funcs, &mut effects);
    (effects, r)
}

#[test]
fn items_index_and_id_per_element() {
    let input = obj(vec![(
        "items",
        JsonValue::Array(vec![obj(vec![("id", num(1))]), obj(vec![("id", num(2))])]),
    )]);
    let (effects, r) = run(".items@p($_k,.id)", input);
    assert_eq!(r, Ok(()));
    assert_eq!(effects, vec![print(vec![num(0), num(1)]), print(vec![num(1), num(2)])]);
}

#[test]
fn slice_from_one_prints_each_value() {
    let input = JsonValue::Array(vec![num(10), num(20), num(30)]);
    let (effects, r) = run("[1:]@p($_v)", input);
    assert_eq!(r, Ok(()));
    assert_eq!(effects, vec![print(vec![num(20)]), print(vec![num(30)])]);
}

#[test]
fn missing_key_fails_before_any_action() {
    let input = obj(vec![("a", num(1))]);
    let (effects, r) = run(".b@p(.a)", input);
    assert_eq!(r, Err(JkError::Query(QueryError::KeyNotFound("b".to_string()))));
    assert!(effects.is_empty());
}

#[test]
fn foreach_object_evaluates_field_on_entry_values() {
    let input = obj(vec![("a", num(1)), ("b", num(2))]);
    let (effects, r) = run(".*@p(.a)", input);
    assert_eq!(r, Err(JkError::Eval(EvalError::NotAnObject)));
    assert!(effects.is_empty());
}

#[test]
fn foreach_object_field_missing_in_entry() {
    let input = obj(vec![("x", obj(vec![("a", num(5))])), ("y", obj(vec![("b", num(6))]))]);
    let (effects, r) = run(".*@p(.a)", input);
    assert_eq!(r, Err(JkError::Eval(EvalError::FieldMissing("a".to_string()))));
    assert_eq!(effects, vec![print(vec![num(5)])]);
}

#[test]
fn foreach_object_binds_key_and_value() {
    let input = obj(vec![("a", num(1)), ("b", text("x"))]);
    let (effects, r) = run(".*@p($_k,$_v)", input);
    assert_eq!(r, Ok(()));
    assert_eq!(effects, vec![print(vec![text("a"), num(1)]), print(vec![text("b"), text("x")])]);
}

#[test]
fn index_selects_element() {
    let a = JsonValue::Array(vec![num(10), num(20), num(30)]);
    let ops = vec![Jop::ArrayIndex(2)];
    assert_eq!(select(&a, &ops), Ok(num(30)));
}

#[test]
fn index_out_of_range_fails() {
    let a = JsonValue::Array(vec![num(10), num(20), num(30)]);
    assert_eq!(select(&a, &vec![Jop::ArrayIndex(3)]), Err(QueryError::IndexOutOfRange(3)));
    assert_eq!(select(&a, &vec![Jop::ArrayIndex(-1)]), Err(QueryError::IndexOutOfRange(-1)));
}

#[test]
fn slice_is_clamped() {
    let a = JsonValue::Array(vec![num(1), num(2), num(3), num(4)]);
    let s = |start, end| Jop::ArraySlice(ArraySlice::new(start, end, None));
    assert_eq!(select(&a, &vec![s(Some(1), Some(3))]), Ok(JsonValue::Array(vec![num(2), num(3)])));
    assert_eq!(
        select(&a, &vec![s(Some(-5), Some(2))]),
        Ok(JsonValue::Array(vec![num(1), num(2)]))
    );
    assert_eq!(
        select(&a, &vec![s(Some(2), Some(100))]),
        Ok(JsonValue::Array(vec![num(3), num(4)]))
    );
    assert_eq!(select(&a, &vec![s(Some(3), Some(1))]), Ok(JsonValue::Array(vec![])));
    assert_eq!(select(&a, &vec![s(None, None)]), Ok(a.deep_copy()));
}

#[test]
fn slice_step_is_ignored() {
    let a = JsonValue::Array(vec![num(1), num(2), num(3), num(4)]);
    let op = Jop::ArraySlice(ArraySlice::new(Some(0), Some(4), Some(2)));
    assert_eq!(select(&a, &vec![op]), Ok(a.deep_copy()));
}

#[test]
fn to_range_clamps_and_defaults() {
    let r = ArraySlice::new(None, None, None).to_range(5);
    assert_eq!((r.start, r.end), (0, 5));
    let r = ArraySlice::new(Some(-2), Some(9), None).to_range(5);
    assert_eq!((r.start, r.end), (0, 5));
    let r = ArraySlice::new(Some(4), Some(1), None).to_range(5);
    assert_eq!((r.start, r.end), (4, 1));
}

#[test]
fn key_and_wildcard_on_object() {
    let o = obj(vec![("a", num(1)), ("b", num(2))]);
    let key = |k: &str| Jop::Object(ObjectSelector::Exact(k.to_string()));
    assert_eq!(select(&o, &vec![key("b")]), Ok(num(2)));
    assert_eq!(select(&o, &vec![key("c")]), Err(QueryError::KeyNotFound("c".to_string())));
    assert_eq!(
        select(&o, &vec![Jop::Object(ObjectSelector::Wildcard)]),
        Ok(o.deep_copy())
    );
}

#[test]
fn array_op_on_object_is_type_mismatch() {
    let o = obj(vec![("a", num(1))]);
    assert_eq!(apply(&o, &Jop::ArrayIndex(0)), Err(QueryError::TypeMismatch));
}

#[test]
fn key_over_array_maps_elements() {
    let a = JsonValue::Array(vec![obj(vec![("id", num(1))]), obj(vec![("id", num(2))]), num(7)]);
    let op = Jop::Object(ObjectSelector::Exact("id".to_string()));
    assert_eq!(apply(&a, &op), Ok(JsonValue::Array(vec![num(1), num(2), num(7)])));
    let missing = JsonValue::Array(vec![obj(vec![("id", num(1))]), obj(vec![])]);
    assert_eq!(apply(&missing, &op), Err(QueryError::KeyNotFound("id".to_string())));
}

#[test]
fn scalar_passes_through_any_step() {
    assert_eq!(apply(&text("s"), &Jop::ArrayIndex(4)), Ok(text("s")));
    assert_eq!(apply(&JsonValue::Null, &Jop::Object(ObjectSelector::Wildcard)), Ok(JsonValue::Null));
}

#[test]
fn chain_stops_at_first_failure() {
    let o = obj(vec![("a", obj(vec![("b", num(3))]))]);
    let key = |k: &str| Jop::Object(ObjectSelector::Exact(k.to_string()));
    assert_eq!(select(&o, &vec![key("a"), key("b")]), Ok(num(3)));
    assert_eq!(
        select(&o, &vec![key("x"), key("b")]),
        Err(QueryError::KeyNotFound("x".to_string()))
    );
}

#[test]
fn unknown_function_is_reported_after_arguments() {
    let (effects, r) = run("[0]@q(1)", JsonValue::Array(vec![num(1)]));
    assert_eq!(r, Err(JkError::Action(ActionError::FunctionNotFound("q".to_string()))));
    assert!(effects.is_empty());
    let (_, r) = run("[0]@q(.a)", JsonValue::Array(vec![num(1)]));
    assert_eq!(r, Err(JkError::Eval(EvalError::NotAnObject)));
}

#[test]
fn failure_keeps_earlier_effects() {
    let input = JsonValue::Array(vec![obj(vec![("a", num(1))]), num(2)]);
    let (effects, r) = run("[:]@p(.a)", input);
    assert_eq!(r, Err(JkError::Eval(EvalError::NotAnObject)));
    assert_eq!(effects, vec![print(vec![num(1)])]);
}

#[test]
fn several_calls_run_in_order() {
    let (effects, r) = run("[0]  @  p(1) p(\"two\",$_v)", JsonValue::Array(vec![num(9)]));
    assert_eq!(r, Ok(()));
    assert_eq!(
        effects,
        vec![print(vec![num(1)]), print(vec![text("two"), num(9)])]
    );
}

#[test]
fn unbound_variable_is_null() {
    let (effects, r) = run("[0]@p($nope,$_k)", JsonValue::Array(vec![num(9)]));
    assert_eq!(r, Ok(()));
    assert_eq!(effects, vec![print(vec![JsonValue::Null, JsonValue::Null])]);
}

#[test]
fn array_element_argument() {
    let funcs = make_builtin_funcs();
    let action = vec![Function { name: "p".to_string(), args: vec![ActionExpr::ArrayIndex(1)] }];
    let mut effects = Vec::new();
    let v = JsonValue::Array(vec![num(4), num(5)]);
    assert_eq!(run_forself_action(&v, &action, &funcs, &mut effects), Ok(()));
    assert_eq!(effects, vec![print(vec![num(5)])]);
    let action = vec![Function { name: "p".to_string(), args: vec![ActionExpr::ArrayIndex(2)] }];
    assert_eq!(
        run_forself_action(&v, &action, &funcs, &mut effects),
        Err(JkError::Eval(EvalError::IndexOutOfRange(2)))
    );
    assert_eq!(
        run_forself_action(&num(1), &action, &funcs, &mut effects),
        Err(JkError::Eval(EvalError::NotAnArray))
    );
}

#[test]
fn foreach_on_scalar_runs_once() {
    let funcs = make_builtin_funcs();
    let action = vec![Function { name: "p".to_string(), args: vec![ActionExpr::Variable("_v".to_string())] }];
    let mut effects = Vec::new();
    assert_eq!(run_foreach_action(&text("hi"), &action, &funcs, &mut effects), Ok(()));
    assert_eq!(effects, vec![print(vec![text("hi")])]);
}

#[test]
fn forself_on_array_runs_once_on_whole() {
    let funcs = make_builtin_funcs();
    let action = vec![Function { name: "p".to_string(), args: vec![ActionExpr::Variable("_v".to_string())] }];
    let mut effects = Vec::new();
    let v = JsonValue::Array(vec![num(1), num(2)]);
    assert_eq!(run_forself_action(&v, &action, &funcs, &mut effects), Ok(()));
    assert_eq!(effects, vec![print(vec![v.deep_copy()])]);
}

#[test]
fn runtime_set_get_delete() {
    let mut rt = Runtime::new();
    let k = "_k".to_string();
    assert_eq!(rt.var_get(&k), JsonValue::Null);
    rt.var_set(&k, num(3));
    assert_eq!(rt.var_get(&k), num(3));
    rt.var_set(&k, text("x"));
    assert_eq!(rt.var_get(&k), text("x"));
    rt.var_delete(&k);
    assert_eq!(rt.var_get(&k), JsonValue::Null);
}

#[test]
fn registry_has_print_only() {
    let funcs = make_builtin_funcs();
    assert_eq!(funcs.get(&"p".to_string()).map(|f| f.func), Some(Builtin::Print));
    assert!(funcs.get(&"q".to_string()).is_none());
}

#[test]
fn deep_copy_is_equal() {
    let v = obj(vec![("a", JsonValue::Array(vec![JsonValue::Bool(true), text("s")]))]);
    assert_eq!(v.deep_copy(), v);
}

#[test]
fn mode_of_parsed_program_is_foreach() {
    let s = parse(".a@p(1)").unwrap();
    assert_eq!(s.mode, ActionMode::ForEach);
}

#[test]
fn numbers_of_every_kind_pass_through() {
    let big = JsonValue::Number(JsonNumber::UInt(18446744073709551615));
    let half = JsonValue::Number(JsonNumber::FloatBits(0.5f64.to_bits()));
    let a = JsonValue::Array(vec![big.deep_copy(), half.deep_copy()]);
    let (effects, r) = run("[:]@p($_v)", a);
    assert_eq!(r, Ok(()));
    assert_eq!(effects, vec![print(vec![big]), print(vec![half])]);
}

#[test]
fn first_entry_wins_for_repeated_key() {
    let o = obj(vec![("a", num(1)), ("a", num(2))]);
    let (effects, r) = run("[:]@p(.a)", JsonValue::Array(vec![o]));
    assert_eq!(r, Ok(()));
    assert_eq!(effects, vec![print(vec![num(1)])]);
}

#[test]
fn well_formed_rejects_repeated_keys() {
    let good = obj(vec![("a", JsonValue::Array(vec![obj(vec![("x", num(1)), ("y", num(2))])]))]);
    assert!(good.well_formed());
    let nested = obj(vec![("a", JsonValue::Array(vec![obj(vec![("x", num(1)), ("x", num(2))])]))]);
    assert!(!nested.well_formed());
    assert!(!obj(vec![("k", num(1)), ("k", num(1))]).well_formed());
    assert!(num(3).well_formed());
}

#[test]
fn slice_with_start_after_end_is_empty() {
    let a = JsonValue::Array(vec![num(1), num(2), num(3)]);
    let r = ArraySlice::new(Some(2), Some(1), None).to_range(3);
    assert_eq!((r.start, r.end), (2, 1));
    let op = Jop::ArraySlice(ArraySlice::new(Some(2), Some(1), None));
    assert_eq!(apply(&a, &op), Ok(JsonValue::Array(vec![])));
}

#[test]
fn rendered_program_runs_alike() {
    let input = obj(vec![(
        "items",
        JsonValue::Array(vec![obj(vec![("id", num(1))]), obj(vec![("name", text("n"))])]),
    )]);
    for program in [".items@p($_k,.id)", "items@p(\"x\",$_v) q(1)", ".items.[5]@p()", ".items.id@p($_v)"] {
        let s = parse(program).unwrap();
        let s2 = parse(&render(&s)).unwrap();
        let funcs = make_builtin_funcs();
        let (mut e1, mut e2) = (Vec::new(), Vec::new());
        let r1 = execute(&s, &input, &funcs, &mut e1);
        let r2 = execute(&s2, &input, &funcs, &mut e2);
        assert_eq!(r1, r2, "{}", program);
        assert_eq!(e1, e2, "{}", program);
    }
}

#[test]
fn loop_helpers_keep_other_bindings() {
    let funcs = make_builtin_funcs();
    let action = vec![Function {
        name: "p".to_string(),
        args: vec![ActionExpr::Variable("x".to_string()), ActionExpr::Variable("_k".to_string())],
    }];
    let mut rt = Runtime::new();
    rt.var_set(&"x".to_string(), num(7));
    rt.var_set(&"_k".to_string(), num(99));
    let mut effects = Vec::new();
    let values = vec![text("a"), text("b")];
    assert_eq!(run_array_action(&mut rt, &funcs, &values, &action, &mut effects), Ok(()));
    assert_eq!(effects, vec![print(vec![num(7), num(0)]), print(vec![num(7), num(1)])]);
    assert_eq!(rt.var_get(&"x".to_string()), num(7));
    assert_eq!(rt.var_get(&"_k".to_string()), JsonValue::Null);
    assert_eq!(rt.var_get(&"_v".to_string()), JsonValue::Null);

    let mut effects = Vec::new();
    let entries = vec![("k1".to_string(), num(1))];
    assert_eq!(run_object_action(&mut rt, &funcs, &entries, &action, &mut effects), Ok(()));
    assert_eq!(effects, vec![print(vec![num(7), text("k1")])]);
    assert_eq!(rt.var_get(&"x".to_string()), num(7));
    assert_eq!(rt.var_get(&"_k".to_string()), JsonValue::Null);
}

fn lines(effects: &[Effect], texts: impl Fn(&JsonValue) -> String) -> String {
    let mut out = String::new();
    for e in effects {
        let t: Vec<String> = e.args.iter().map(|a| texts(a)).collect();
        out.push_str(&print_line(&e.args, &t));
    }
    out
}

fn int_text(v: &JsonValue) -> String {
    match v {
        JsonValue::Number(JsonNumber::Int(i)) => i.to_string(),
        other => panic!("unexpected argument {:?}", other),
    }
}

#[test]
fn items_scenario_writes_index_and_id_lines() {
    let input = obj(vec![(
        "items",
        JsonValue::Array(vec![obj(vec![("id", num(1))]), obj(vec![("id", num(2))])]),
    )]);
    let (effects, r) = run(".items@p($_k,.id)", input);
    assert_eq!(r, Ok(()));
    assert_eq!(lines(&effects, int_text), "0 1\n1 2\n");
}

#[test]
fn slice_scenario_writes_one_value_per_line() {
    let (effects, r) = run("[1:]@p($_v)", JsonValue::Array(vec![num(10), num(20), num(30)]));
    assert_eq!(r, Ok(()));
    assert_eq!(lines(&effects, int_text), "20\n30\n");
}

#[test]
fn print_line_leaves_strings_unquoted() {
    let args = vec![text("a b"), num(3), JsonValue::Null, text("")];
    let texts = vec!["\"a b\"".to_string(), "3".to_string(), "null".to_string(), "\"\"".to_string()];
    assert_eq!(print_line(&args, &texts), "a b 3 null \n");
    assert_eq!(print_line(&vec![], &vec![]), "\n");
    assert_eq!(print_line(&vec![num(0), num(1)], &vec!["0".to_string(), "1".to_string()]), "0 1\n");
}
