use rune::interpreter::{eval_declaration, eval_expression, eval_module, Scope, Value};
use rune::lexer::tokenize;
use rune::parser::{parse_module, parse_single_decl, parse_single_expr, Expression};

const FUEL: u64 = 1000;

fn eval_src(src: &str, scope: &Scope) -> Value {
    let ts = tokenize(src).expect("tokenize failed");
    let e = parse_single_expr(&ts).expect("parse failed");
    eval_expression(&e, scope, FUEL).expect("fuel ran out")
}

fn eval_module_src(src: &str) -> Scope {
    let ts = tokenize(src).expect("tokenize failed");
    let m = parse_module(&ts).expect("parse failed");
    eval_module(&m, FUEL).expect("fuel ran out")
}

fn expect_number(v: &Value) -> i64 {
    match v {
        Value::Number(n) => *n,
        Value::String(s) => panic!("expected a number, got the string {:?}", s),
        Value::Function(_, _, _) => panic!("expected a number, got a function"),
        Value::Error(e) => panic!("expected a number, got the error {:?}", e),
    }
}

fn expect_error(v: &Value) -> String {
    match v {
        Value::Error(e) => e.clone(),
        other => panic!("expected an error value, got {:?}", expect_shape(other)),
    }
}

fn expect_shape(v: &Value) -> String {
    match v {
        Value::Number(n) => format!("Number({})", n),
        Value::String(s) => format!("String({})", s),
        Value::Function(_, _, _) => "Function".to_string(),
        Value::Error(e) => format!("Error({})", e),
    }
}

#[test]
fn arithmetic_basics() {
    let empty = Scope::new();
    assert_eq!(expect_number(&eval_src("1 + 2 * 3", &empty)), 7);
    assert_eq!(expect_number(&eval_src("(1 + 2) * 3", &empty)), 9);
    assert_eq!(expect_number(&eval_src("10 - 4", &empty)), 6);
    assert_eq!(expect_number(&eval_src("+5", &empty)), 5);
    assert_eq!(expect_number(&eval_src("- - 3", &empty)), 3);
    assert_eq!(expect_number(&eval_src("-3", &empty)), -3);
}

#[test]
fn division_truncates_toward_zero() {
    let empty = Scope::new();
    assert_eq!(expect_number(&eval_src("7 / 2", &empty)), 3);
    assert_eq!(expect_number(&eval_src("-7 / 2", &empty)), -3);
    assert_eq!(expect_number(&eval_src("7 % 2", &empty)), 1);
    assert_eq!(expect_number(&eval_src("-7 % 2", &empty)), -1);
}

#[test]
fn division_by_zero_is_an_error_value() {
    let empty = Scope::new();
    assert_eq!(expect_error(&eval_src("1 / 0", &empty)), "division by zero");
    assert_eq!(expect_error(&eval_src("1 % 0", &empty)), "division by zero");
}

#[test]
fn addition_wraps_at_sixty_four_bits() {
    let empty = Scope::new();
    let v = eval_src("9223372036854775807 + 1", &empty);
    assert_eq!(expect_number(&v), i64::MIN);
}

#[test]
fn division_overflow_wraps() {
    let empty = Scope::new();
    let v = eval_src("(0 - 9223372036854775807 - 1) / (0 - 1)", &empty);
    assert_eq!(expect_number(&v), i64::MIN);
    let r = eval_src("(0 - 9223372036854775807 - 1) % (0 - 1)", &empty);
    assert_eq!(expect_number(&r), 0);
}

#[test]
fn oversized_number_literal_is_an_error_value() {
    let empty = Scope::new();
    assert_eq!(
        expect_error(&eval_src("9223372036854775808", &empty)),
        "malformed number literal"
    );
}

#[test]
fn largest_number_literal_evaluates() {
    let empty = Scope::new();
    assert_eq!(expect_number(&eval_src("9223372036854775807", &empty)), i64::MAX);
    assert_eq!(expect_number(&eval_src("000", &empty)), 0);
}

#[test]
fn implicit_currying_applies_left_to_right() {
    let scope = eval_module_src("let f = x -> y -> x + y");
    let v = eval_src("f 1 2", &scope);
    assert_eq!(expect_number(&v), 3);
}

#[test]
fn partial_application_yields_a_function() {
    let scope = eval_module_src("let f = x -> y -> x + y");
    let v = eval_src("f 1", &scope);
    assert!(matches!(v, Value::Function(_, _, _)));
}

#[test]
fn first_declaration_wins() {
    let scope = eval_module_src("let x = 1 let x = 2");
    match scope.get(&"x".to_string()) {
        Some(Value::Number(n)) => assert_eq!(*n, 1),
        other => panic!("x resolved to {:?}", other.map(expect_shape)),
    }
}

#[test]
fn undefined_identifier_is_an_error_value() {
    let empty = Scope::new();
    assert_eq!(expect_error(&eval_src("z", &empty)), "z is not defined");
}

#[test]
fn arithmetic_on_non_numbers_is_an_error_value() {
    let empty = Scope::new();
    assert_eq!(expect_error(&eval_src("\"a\" + 1", &empty)), "Operation on non-number");
    assert_eq!(expect_error(&eval_src("1 + \"a\"", &empty)), "Operation on non-number");
    assert_eq!(expect_error(&eval_src("-\"a\"", &empty)), "Operation on non-number");
}

#[test]
fn operator_swallows_nested_error_message() {
    let empty = Scope::new();
    // The left operand alone evaluates to "z is not defined"; passing it
    // through an operator replaces that message wholesale.
    assert_eq!(expect_error(&eval_src("z + 1", &empty)), "Operation on non-number");
}

#[test]
fn calling_a_non_function_is_an_error_value() {
    let empty = Scope::new();
    assert_eq!(expect_error(&eval_src("1 2", &empty)), "Call to non-function");
}

#[test]
fn string_value_keeps_its_quoted_text() {
    let empty = Scope::new();
    match eval_src("\"hi\"", &empty) {
        Value::String(s) => assert_eq!(s, "\"hi\""),
        other => panic!("expected a string, got {:?}", expect_shape(&other)),
    }
}

#[test]
fn closure_captures_its_definition_scope() {
    let scope = eval_module_src("let a = 1 let g = x -> x + a");
    let v = eval_src("g 2", &scope);
    assert_eq!(expect_number(&v), 3);
}

#[test]
fn forward_reference_resolves_as_undefined() {
    let scope = eval_module_src("let b = a let a = 1");
    match scope.get(&"b".to_string()) {
        Some(Value::Error(e)) => assert_eq!(e, "a is not defined"),
        other => panic!("b resolved to {:?}", other.map(expect_shape)),
    }
}

#[test]
fn block_placeholder_evaluates_to_zero() {
    let empty = Scope::new();
    let v = eval_expression(&Expression::BlockExpression, &empty, FUEL).expect("fuel ran out");
    assert_eq!(expect_number(&v), 0);
}

#[test]
fn self_application_runs_out_of_fuel() {
    let scope = eval_module_src("let w = x -> x x");
    let ts = tokenize("w w").expect("tokenize failed");
    let e = parse_single_expr(&ts).expect("parse failed");
    assert!(eval_expression(&e, &scope, 50).is_none());
}

#[test]
fn eval_declaration_returns_value_and_binds_once() {
    let ts = tokenize("let x = 41 + 1").expect("tokenize failed");
    let d = parse_single_decl(&ts).expect("parse failed");
    let mut scope = Scope::new();
    let v = eval_declaration(&d, &mut scope, FUEL).expect("fuel ran out");
    assert_eq!(expect_number(&v), 42);
    let ts2 = tokenize("let x = 5").expect("tokenize failed");
    let d2 = parse_single_decl(&ts2).expect("parse failed");
    let v2 = eval_declaration(&d2, &mut scope, FUEL).expect("fuel ran out");
    assert_eq!(expect_number(&v2), 5);
    match scope.get(&"x".to_string()) {
        Some(Value::Number(n)) => assert_eq!(*n, 42),
        other => panic!("x resolved to {:?}", other.map(expect_shape)),
    }
}

#[test]
fn scope_bind_overwrites_but_define_does_not() {
    let mut scope = Scope::new();
    scope.define_if_absent("x".to_string(), Value::Number(1));
    scope.define_if_absent("x".to_string(), Value::Number(2));
    match scope.get(&"x".to_string()) {
        Some(Value::Number(n)) => assert_eq!(*n, 1),
        other => panic!("x resolved to {:?}", other.map(expect_shape)),
    }
    scope.bind("x".to_string(), Value::Number(3));
    match scope.get(&"x".to_string()) {
        Some(Value::Number(n)) => assert_eq!(*n, 3),
        other => panic!("x resolved to {:?}", other.map(expect_shape)),
    }
    assert!(scope.get(&"y".to_string()).is_none());
}

#[test]
fn parameter_binding_shadows_captured_name() {
    // The parameter overwrites the captured binding of the same name in
    // the copy the call extends; the defining scope is untouched.
    let scope = eval_module_src("let a = 1 let h = a -> a + 10");
    let v = eval_src("h 5", &scope);
    assert_eq!(expect_number(&v), 15);
    match scope.get(&"a".to_string()) {
        Some(Value::Number(n)) => assert_eq!(*n, 1),
        other => panic!("a resolved to {:?}", other.map(expect_shape)),
    }
}

#[test]
fn module_evaluation_uses_running_environment() {
    let scope = eval_module_src("let a = 1 let b = a + 1 let c = a + b");
    match scope.get(&"c".to_string()) {
        Some(Value::Number(n)) => assert_eq!(*n, 3),
        other => panic!("c resolved to {:?}", other.map(expect_shape)),
    }
}
