use comix::grammar::{ebnf_parser, parse_grammar, Production, Rule};

#[test]
fn validate_ebnf_parser() {
    let ebnf_input = r#"
        program ::= statement* ;
        statement ::= "let" IDENTIFIER "=" expression ";" ;
    "#;

    let grammar_parser = ebnf_parser();

    match grammar_parser.parse(ebnf_input) {
        Ok(grammar) => println!("Parsed grammar: {:#?}", grammar),
        Err(errors) => panic!("Failed to parse EBNF: {:?}", errors),
    }
}

fn names(v: &[&str]) -> Vec<String> {
    v.iter().map(|s| s.to_string()).collect()
}

#[test]
fn choice_flattens_its_alternatives() {
    let grammar = parse_grammar("rule ::= \"a\" | \"b\";").unwrap();
    assert_eq!(
        grammar.rules,
        vec![Rule {
            name: "rule".to_string(),
            productions: vec![Production::Choice(names(&["a", "b"]))],
        }]
    );
    let grammar = parse_grammar("x ::= A B | C D").unwrap();
    assert_eq!(
        grammar.rules[0].productions,
        vec![Production::Choice(names(&["A", "B", "C", "D"]))]
    );
}

#[test]
fn single_alternative_is_a_sequence_and_rules_follow_each_other() {
    let grammar =
        parse_grammar("statement ::= \"let\" IDENTIFIER \"=\" expression \";\"\nother ::= x")
            .unwrap();
    assert_eq!(
        grammar.rules,
        vec![
            Rule {
                name: "statement".to_string(),
                productions: vec![Production::Sequence(names(&[
                    "let",
                    "IDENTIFIER",
                    "=",
                    "expression",
                    ";"
                ]))],
            },
            Rule {
                name: "other".to_string(),
                productions: vec![Production::Sequence(names(&["x"]))],
            },
        ]
    );
}

#[test]
fn reading_stops_at_the_first_unreadable_rule() {
    let grammar = parse_grammar("program ::= statement* ;\nnext ::= a").unwrap();
    assert_eq!(
        grammar.rules,
        vec![Rule {
            name: "program".to_string(),
            productions: vec![Production::Sequence(names(&["statement"]))],
        }]
    );
    assert_eq!(parse_grammar("").unwrap().rules, vec![]);
    assert_eq!(parse_grammar("a ::= ;").unwrap().rules, vec![]);
}
