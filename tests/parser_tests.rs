use comix::parser::{language_parser, parse_source, Expr, ParseError, Statement};

#[test]
fn parse_multiple_statements() {
    let program_input = r#"
        let x = 42;
        let y = x + 3;
    "#;

    let parser = language_parser();
    let parsed_program = parser
        .parse(program_input)
        .expect("Failed to parse program");

    assert_eq!(
        parsed_program,
        vec![
            Statement::Let("x".to_string(), Expr::Number(42)),
            Statement::Let(
                "y".to_string(),
                Expr::Add(
                    Box::new(Expr::Variable("x".to_string())),
                    Box::new(Expr::Number(3))
                )
            )
        ]
    );
}

#[test]
fn addition_folds_to_the_left() {
    let parsed = parse_source("let s = a + 2 + \"t\";").unwrap();
    assert_eq!(
        parsed,
        vec![Statement::Let(
            "s".to_string(),
            Expr::Add(
                Box::new(Expr::Add(
                    Box::new(Expr::Variable("a".to_string())),
                    Box::new(Expr::Number(2))
                )),
                Box::new(Expr::Text("t".to_string()))
            )
        )]
    );
}

#[test]
fn statements_on_one_line_and_extra_separators() {
    let parsed = parse_source("let a = 1; let b = 2;;\n;\n").unwrap();
    assert_eq!(
        parsed,
        vec![
            Statement::Let("a".to_string(), Expr::Number(1)),
            Statement::Let("b".to_string(), Expr::Number(2)),
        ]
    );
}

#[test]
fn empty_and_blank_programs() {
    assert_eq!(parse_source(""), Ok(vec![]));
    assert_eq!(parse_source(" \n\t "), Ok(vec![]));
}

#[test]
fn text_literal_keeps_its_characters() {
    let parsed = parse_source("let t = \"a b+c\";").unwrap();
    assert_eq!(
        parsed,
        vec![Statement::Let("t".to_string(), Expr::Text("a b+c".to_string()))]
    );
}

#[test]
fn largest_number_parses_and_one_more_fails() {
    let parsed = parse_source("let n = 9223372036854775807;").unwrap();
    assert_eq!(
        parsed,
        vec![Statement::Let("n".to_string(), Expr::Number(i64::MAX))]
    );
    assert_eq!(
        parse_source("let n = 9223372036854775808;"),
        Err(ParseError { position: 8 })
    );
}

#[test]
fn unterminated_text_fails() {
    assert!(parse_source("let t = \"abc;").is_err());
}

#[test]
fn missing_equals_fails() {
    assert_eq!(parse_source("let x 1;"), Err(ParseError { position: 6 }));
}

#[test]
fn missing_semicolon_fails() {
    assert_eq!(parse_source("let x = 1"), Err(ParseError { position: 9 }));
}

#[test]
fn trailing_input_fails() {
    assert!(parse_source("let x = 1; garbage").is_err());
}

#[test]
fn let_needs_whitespace_after_keyword() {
    assert!(parse_source("letx = 1;").is_err());
}

#[test]
fn dangling_plus_fails() {
    assert!(parse_source("let x = 1 + ;").is_err());
}

#[test]
fn reparsing_gives_the_same_program() {
    let src = "let x = 42;\nlet y = x + 3;";
    let parser = language_parser();
    assert_eq!(parser.parse(src), parser.parse(src));
}
