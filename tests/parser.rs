use jk::{parse, render, ActionExpr, ActionMode, ArraySlice, Function, Jop, ObjectSelector, ParseError, Script};

fn key(k: &str) -> Jop {
    Jop::Object(ObjectSelector::Exact(k.to_string()))
}

#[test]
fn parses_key_chain_and_call() {
    let s = parse(".items@p($_k,.id)").unwrap();
    assert_eq!(s.selector, vec![key("items")]);
    assert_eq!(
        s.action,
        vec![Function {
            name: "p".to_string(),
            args: vec![
                ActionExpr::Variable("_k".to_string()),
                ActionExpr::ObjectIndex("id".to_string())
            ],
        }]
    );
}

#[test]
fn parses_index_and_slices() {
    let s = parse("[3].[1:].[:-2].[+1:5:2].[::].*.a@p()").unwrap();
    assert_eq!(
        s.selector,
        vec![
            Jop::ArrayIndex(3),
            Jop::ArraySlice(ArraySlice::new(Some(1), None, None)),
            Jop::ArraySlice(ArraySlice::new(None, Some(-2), None)),
            Jop::ArraySlice(ArraySlice::new(Some(1), Some(5), Some(2))),
            Jop::ArraySlice(ArraySlice::new(None, None, None)),
            Jop::Object(ObjectSelector::Wildcard),
            key("a"),
        ]
    );
    assert_eq!(s.action, vec![Function { name: "p".to_string(), args: vec![] }]);
}

#[test]
fn parses_literal_arguments() {
    let s = parse("a@p(-12,\"x y\",+7)").unwrap();
    assert_eq!(
        s.action[0].args,
        vec![
            ActionExpr::Integer(-12),
            ActionExpr::String("x y".to_string()),
            ActionExpr::Integer(7)
        ]
    );
}

#[test]
fn integer_limits() {
    let s = parse("a@p(-9223372036854775808,9223372036854775807)").unwrap();
    assert_eq!(s.action[0].args, vec![ActionExpr::Integer(i64::MIN), ActionExpr::Integer(i64::MAX)]);
    assert_eq!(parse("a@p(9223372036854775808)"), Err(ParseError { offset: 4 }));
}

#[test]
fn rejects_trailing_input() {
    assert_eq!(parse(".a@p(1)x"), Err(ParseError { offset: 7 }));
    assert_eq!(parse(".a@p(1) "), Err(ParseError { offset: 8 }));
}

#[test]
fn rejects_missing_separator() {
    assert_eq!(parse(".a p(1)"), Err(ParseError { offset: 3 }));
    assert_eq!(parse(""), Err(ParseError { offset: 0 }));
}

#[test]
fn rejects_bad_brackets() {
    assert_eq!(parse("[]@p()"), Err(ParseError { offset: 1 }));
    assert_eq!(parse("[1:2:3:4]@p()"), Err(ParseError { offset: 6 }));
    assert_eq!(parse("[x]@p()"), Err(ParseError { offset: 1 }));
}

#[test]
fn rejects_unterminated_string() {
    assert_eq!(parse("a@p(\"abc)"), Err(ParseError { offset: 9 }));
}

#[test]
fn non_ascii_names() {
    let s = parse(".名前@p(.é)").unwrap();
    assert_eq!(s.selector, vec![key("名前")]);
    assert_eq!(s.action[0].args, vec![ActionExpr::ObjectIndex("é".to_string())]);
}

#[test]
fn render_writes_canonical_text() {
    let s = parse("items.[+1:-2:3] @ p( 1 )").err();
    assert_eq!(s, Some(ParseError { offset: 20 }));
    let s = parse("items.[+1:-2:3]  @p(+01,\"a b\",$_v) q(.id)").unwrap();
    assert_eq!(render(&s), ".items.[1:-2:3]@p(1,\"a b\",$_v) q(.id)");
}

#[test]
fn render_of_index_wildcard_and_empty_args() {
    let s = Script {
        selector: vec![Jop::ArrayIndex(-9223372036854775808), Jop::Object(ObjectSelector::Wildcard)],
        mode: ActionMode::ForEach,
        action: vec![Function { name: "p".to_string(), args: vec![] }],
    };
    assert_eq!(render(&s), ".[-9223372036854775808].*@p()");
}

#[test]
fn parse_render_parse_round_trip() {
    for program in [
        ".items@p($_k,.id)",
        "[1:]@p($_v)",
        ".b@p(.a)",
        "a.b.*.[0].[::].[-3:]\t@\n p(-7,\"x\") q() r($k,.f,0)",
        "[:5:]@p(\"\")",
    ] {
        let first = parse(program).unwrap();
        let text = render(&first);
        let second = parse(&text).unwrap();
        assert_eq!(second, first, "{}", program);
    }
}
