use neoutl::expression::{tokenize, CompiledExpression, ExpressionBinding, ExpressionEngine, PropertyExpressions, Token};

fn show(t: &Token) -> String {
    match t {
        Token::Number(s) => format!("N:{s}"),
        Token::Variable(s) => format!("V:{s}"),
        Token::PropRef(s) => format!("P:{s}"),
        Token::Func(s) => format!("F:{s}"),
        Token::Plus => "+".to_string(),
        Token::Minus => "-".to_string(),
        Token::Multiply => "*".to_string(),
        Token::Divide => "/".to_string(),
        Token::Modulo => "%".to_string(),
        Token::LParen => "(".to_string(),
        Token::RParen => ")".to_string(),
        Token::Comma => ",".to_string(),
    }
}

fn show_all(ts: &[Token]) -> Vec<String> {
    ts.iter().map(show).collect()
}

fn rpn_of(expr: &str) -> Result<Vec<String>, String> {
    CompiledExpression::parse(expr).map(|c| show_all(&c.rpn))
}

#[test]
fn tokenize_arithmetic() {
    let ts = tokenize("time * 10 + 5").unwrap();
    assert_eq!(show_all(&ts), vec!["V:time", "*", "N:10", "+", "N:5"]);
}

#[test]
fn tokenize_functions_props_and_numbers() {
    let ts = tokenize("sin (t)+prop( 'X' )%.5/ 1.").unwrap();
    assert_eq!(show_all(&ts), vec!["F:sin", "(", "V:t", ")", "+", "P:X", "%", "N:.5", "/", "N:1."]);
    let ts = tokenize("prop(\"Pos Y\")").unwrap();
    assert_eq!(show_all(&ts), vec!["P:Pos Y"]);
}

#[test]
fn tokenize_errors() {
    assert_eq!(tokenize("1.2.3").err().unwrap(), "Invalid number '1.2.3': invalid float literal");
    assert_eq!(tokenize("a $ b").err().unwrap(), "Unexpected character: '$'");
}

#[test]
fn parse_precedence_and_functions() {
    assert_eq!(rpn_of("time * 10 + 5").unwrap(), vec!["V:time", "N:10", "*", "N:5", "+"]);
    assert_eq!(rpn_of("sin(time) * 100").unwrap(), vec!["V:time", "F:sin", "N:100", "*"]);
    assert_eq!(
        rpn_of("clamp(value + 10, 0, 50)").unwrap(),
        vec!["V:value", "N:10", "+", "N:0", "N:50", "F:clamp"]
    );
    assert_eq!(rpn_of("prop('X') * 2 + time").unwrap(), vec!["P:X", "N:2", "*", "V:time", "+"]);
    assert_eq!(rpn_of("a - b - c").unwrap(), vec!["V:a", "V:b", "-", "V:c", "-"]);
    assert_eq!(rpn_of("a + b * c").unwrap(), vec!["V:a", "V:b", "V:c", "*", "+"]);
}

#[test]
fn parse_unary_minus_subtracts_from_zero() {
    assert_eq!(rpn_of("-x").unwrap(), vec!["N:0", "V:x", "-"]);
    assert_eq!(rpn_of("2 * (-3)").unwrap(), vec!["N:2", "N:0", "N:3", "-", "*"]);
}

#[test]
fn parse_errors() {
    assert_eq!(rpn_of("(a").err().unwrap(), "Mismatched parentheses");
    assert_eq!(rpn_of("a)").err().unwrap(), "Mismatched parentheses");
    assert_eq!(rpn_of("1..2").err().unwrap(), "Invalid number '1..2': invalid float literal");
    // `prop(` without a quoted name consumes the parenthesis.
    assert_eq!(rpn_of("prop(x)").err().unwrap(), "Mismatched parentheses");
    assert_eq!(rpn_of("").unwrap(), Vec::<String>::new());
}

#[test]
fn engine_compiles_gets_and_releases() {
    let mut engine = ExpressionEngine::new();
    let h1 = engine.compile("a + 1");
    assert_eq!(h1, 1);
    let h2 = engine.compile("b");
    assert_eq!(h2, 2);
    assert_eq!(engine.compile("(b"), 0);
    assert_eq!(show_all(&engine.get(h1).unwrap().rpn), vec!["V:a", "N:1", "+"]);
    engine.release(h1);
    assert!(engine.get(h1).is_none());
    assert!(engine.get(h2).is_some());
    assert_eq!(engine.compile("c"), 3);
}

#[test]
fn property_expressions_set_get_remove() {
    let mut engine = ExpressionEngine::new();
    let mut exprs = PropertyExpressions::new();
    assert!(exprs.get_expression("x").is_none());

    assert!(exprs.set_expression(&mut engine, "x", "  time * 2 \n", true));
    assert_eq!(exprs.get_expression("x"), Some(("time * 2", true)));
    let first = exprs.bindings.get("x").unwrap().compiled_handle;
    assert!(engine.get(first).is_some());

    // Replacing releases the previous compiled expression.
    assert!(exprs.set_expression(&mut engine, "x", "time", false));
    assert_eq!(exprs.get_expression("x"), Some(("time", false)));
    assert!(engine.get(first).is_none());

    // A script that does not parse changes nothing.
    assert!(!exprs.set_expression(&mut engine, "x", "(time", true));
    assert_eq!(exprs.get_expression("x"), Some(("time", false)));

    // An empty script unbinds.
    let second = exprs.bindings.get("x").unwrap().compiled_handle;
    assert!(!exprs.set_expression(&mut engine, "x", "   ", true));
    assert!(exprs.get_expression("x").is_none());
    assert!(engine.get(second).is_none());

    assert!(exprs.set_expression(&mut engine, "y", "1", true));
    assert!(exprs.remove_expression(&mut engine, "y"));
    assert!(!exprs.remove_expression(&mut engine, "y"));
}

#[test]
fn runnable_bindings_skip_disabled_and_uncompiled() {
    let mut engine = ExpressionEngine::new();
    let mut exprs = PropertyExpressions::new();
    assert!(exprs.set_expression(&mut engine, "X", "time", true));
    assert!(exprs.set_expression(&mut engine, "Y", "frame", false));
    exprs.bindings.insert(
        "Z".to_string(),
        ExpressionBinding { script: "1".to_string(), enabled: true, compiled_handle: 0 },
    );
    assert!(exprs.set_expression(&mut engine, "Rotation", "2", true));
    let hx = exprs.bindings.get("X").unwrap().compiled_handle;
    let hr = exprs.bindings.get("Rotation").unwrap().compiled_handle;
    assert_eq!(exprs.runnable_bindings(), vec![("X", hx), ("Rotation", hr)]);
    assert!(PropertyExpressions::new().runnable_bindings().is_empty());
}
