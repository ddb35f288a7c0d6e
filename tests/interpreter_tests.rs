use comix::interpreter::{
    evaluate_expression, evaluate_program, interpret, EvalError, InterpretError, SymbolTable,
    Value,
};
use comix::parser::{language_parser, parse_source, Expr, Statement};

#[test]
fn test_addition() {
    let program_input = r#"
        let x = 42;
        let y = x + 3;
    "#;

    let parser = language_parser();

    let parsed_program = parser
        .parse(program_input)
        .expect("Failed to parse program");
    println!("Parsed Program: {:#?}", parsed_program);

    let parsed_program = parser
        .parse(program_input)
        .expect("Failed to parse program");

    let mut symbols = SymbolTable::new();
    evaluate_program(parsed_program, &mut symbols).expect("Failed to evaluate program");

    assert_eq!(symbols.get("x"), Some(&Value::Number(42)));
    assert_eq!(symbols.get("y"), Some(&Value::Number(45)));
}

#[test]
fn earlier_binding_is_visible_to_later_statement() {
    let mut symbols = SymbolTable::new();
    let program = parse_source("let x = 1; let y = x + 2;").unwrap();
    assert_eq!(evaluate_program(program, &mut symbols), Ok(()));
    assert_eq!(symbols.get("y"), Some(&Value::Number(3)));
}

#[test]
fn use_before_definition_fails() {
    let mut symbols = SymbolTable::new();
    let program = parse_source("let y = x + 2; let x = 1;").unwrap();
    assert_eq!(
        evaluate_program(program, &mut symbols),
        Err(EvalError::UndefinedVariable("x".to_string()))
    );
    assert_eq!(symbols.get("x"), None);
    assert_eq!(symbols.get("y"), None);
}

#[test]
fn duplicate_definition_fails_and_keeps_first_value() {
    let mut symbols = SymbolTable::new();
    let program = parse_source("let x = 1; let x = 2;").unwrap();
    assert_eq!(
        evaluate_program(program, &mut symbols),
        Err(EvalError::DuplicateDefinition("x".to_string()))
    );
    assert_eq!(symbols.get("x"), Some(&Value::Number(1)));
}

#[test]
fn text_plus_number_is_a_type_mismatch() {
    let mut symbols = SymbolTable::new();
    let program = parse_source("let x = \"a\" + 1;").unwrap();
    assert_eq!(
        evaluate_program(program, &mut symbols),
        Err(EvalError::TypeMismatch)
    );
    assert_eq!(symbols.get("x"), None);
}

#[test]
fn round_trip_of_two_statements() {
    let mut symbols = SymbolTable::new();
    assert_eq!(interpret("let x = 42;\nlet y = x + 3;", &mut symbols), Ok(()));
    assert_eq!(symbols.get("x"), Some(&Value::Number(42)));
    assert_eq!(symbols.get("y"), Some(&Value::Number(45)));
}

#[test]
fn text_values_are_bound() {
    let mut symbols = SymbolTable::new();
    assert_eq!(interpret("let a = \"hi\"; let b = a;", &mut symbols), Ok(()));
    assert_eq!(symbols.get("b"), Some(&Value::Text("hi".to_string())));
}

#[test]
fn addition_wraps_on_overflow() {
    let mut symbols = SymbolTable::new();
    assert_eq!(
        interpret("let a = 9223372036854775807 + 1;", &mut symbols),
        Ok(())
    );
    assert_eq!(symbols.get("a"), Some(&Value::Number(i64::MIN)));
}

#[test]
fn parse_error_leaves_table_unchanged() {
    let mut symbols = SymbolTable::new();
    assert!(matches!(
        interpret("let a = ;", &mut symbols),
        Err(InterpretError::Parse(_))
    ));
    assert_eq!(symbols.get("a"), None);
}

#[test]
fn evaluate_expression_on_each_kind() {
    let mut symbols = SymbolTable::new();
    assert_eq!(symbols.define("v", Value::Number(5)), Ok(()));
    assert_eq!(
        evaluate_expression(Expr::Number(-4), &symbols),
        Ok(Value::Number(-4))
    );
    assert_eq!(
        evaluate_expression(Expr::Variable("v".to_string()), &symbols),
        Ok(Value::Number(5))
    );
    assert_eq!(
        evaluate_expression(
            Expr::Add(
                Box::new(Expr::Variable("v".to_string())),
                Box::new(Expr::Number(10))
            ),
            &symbols
        ),
        Ok(Value::Number(15))
    );
    assert_eq!(
        evaluate_expression(Expr::Variable("w".to_string()), &symbols),
        Err(EvalError::UndefinedVariable("w".to_string()))
    );
}

#[test]
fn define_refuses_a_second_binding() {
    let mut symbols = SymbolTable::default();
    assert_eq!(symbols.define("k", Value::Number(1)), Ok(()));
    assert_eq!(
        symbols.define("k", Value::Number(2)),
        Err(EvalError::DuplicateDefinition("k".to_string()))
    );
    assert_eq!(symbols.get("k"), Some(&Value::Number(1)));
}

#[test]
fn error_messages_name_the_variable() {
    assert_eq!(
        EvalError::UndefinedVariable("q".to_string()).message(),
        "Undefined variable: q"
    );
    assert_eq!(
        EvalError::DuplicateDefinition("q".to_string()).message(),
        "Variable already defined: q"
    );
    assert_eq!(
        EvalError::TypeMismatch.message(),
        "Addition is only supported for numbers"
    );
}

#[test]
fn statements_run_from_top_to_bottom_and_stop_at_first_error() {
    let mut symbols = SymbolTable::new();
    let program = vec![
        Statement::Let("a".to_string(), Expr::Number(1)),
        Statement::Let("b".to_string(), Expr::Variable("zz".to_string())),
        Statement::Let("c".to_string(), Expr::Number(3)),
    ];
    assert_eq!(
        evaluate_program(program, &mut symbols),
        Err(EvalError::UndefinedVariable("zz".to_string()))
    );
    assert_eq!(symbols.get("a"), Some(&Value::Number(1)));
    assert_eq!(symbols.get("c"), None);
}
