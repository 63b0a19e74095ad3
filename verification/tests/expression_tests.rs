use cifly::expression::{Expression, Lexer, Op, Token};

fn set_names(names: &[&str]) -> Vec<String> {
    names.iter().map(|s| s.to_string()).collect()
}

#[test]
fn test_parser() {
    let input = "current in Z and next in W";
    let sets = set_names(&["Z", "W"]);
    let s = Expression::from_string(input, &sets).unwrap();
    assert_eq!(s.to_string(), "(and (in current 0) (in next 1))");
}

#[test]
fn test_lexer() {
    let s = "current in C and not (current not in X or next not in V) or next in ancestors_old";
    let mut lexer = Lexer::new(s);
    assert_eq!(lexer.next(), Token::Atom("current".to_owned()));
    assert_eq!(lexer.next(), Token::Op(Op::In));
    assert_eq!(lexer.next(), Token::Atom("C".to_owned()));
    assert_eq!(lexer.next(), Token::Op(Op::And));
    assert_eq!(lexer.next(), Token::Op(Op::Not));
    assert_eq!(lexer.next(), Token::BraceOpen);
    assert_eq!(lexer.next(), Token::Atom("current".to_owned()));
    assert_eq!(lexer.next(), Token::Op(Op::NotIn));
    assert_eq!(lexer.next(), Token::Atom("X".to_owned()));
    assert_eq!(lexer.next(), Token::Op(Op::Or));
    assert_eq!(lexer.next(), Token::Atom("next".to_owned()));
    assert_eq!(lexer.next(), Token::Op(Op::NotIn));
    assert_eq!(lexer.next(), Token::Atom("V".to_owned()));
    assert_eq!(lexer.next(), Token::BraceClose);
    assert_eq!(lexer.next(), Token::Op(Op::Or));
    assert_eq!(lexer.next(), Token::Atom("next".to_owned()));
    assert_eq!(lexer.next(), Token::Op(Op::In));
    assert_eq!(lexer.next(), Token::Atom("ancestors_old".to_owned()));
    assert_eq!(lexer.next(), Token::Eof);
}

#[test]
fn parser_precedence_groups_left_to_right() {
    let sets = set_names(&["A", "B", "C"]);
    let e = Expression::from_string("current in A and next in B or current in C", &sets).unwrap();
    assert_eq!(
        e.to_string(),
        "(or (and (in current 0) (in next 1)) (in current 2))"
    );
}

#[test]
fn parser_not_binds_looser_than_in() {
    let sets = set_names(&["A"]);
    let e = Expression::from_string("not current in A", &sets).unwrap();
    assert_eq!(e.to_string(), "(not (in current 0))");
}

#[test]
fn parser_parentheses_override_precedence() {
    let sets = set_names(&["A", "B", "C"]);
    let e =
        Expression::from_string("current in A and (next in B or current in C)", &sets).unwrap();
    assert_eq!(
        e.to_string(),
        "(and (in current 0) (or (in next 1) (in current 2)))"
    );
}

#[test]
fn parser_true_false_literals() {
    let sets = set_names(&[]);
    assert_eq!(Expression::from_string("true", &sets).unwrap().to_string(), "true");
    assert_eq!(
        Expression::from_string("true and false", &sets).unwrap().to_string(),
        "(and true false)"
    );
}

#[test]
fn parser_rejects_unknown_identifier() {
    let sets = set_names(&["A"]);
    let err = Expression::from_string("current in Q", &sets).unwrap_err();
    assert!(err.message().contains("Q"));
}

#[test]
fn parser_rejects_missing_closing_brace() {
    let sets = set_names(&["A"]);
    assert!(Expression::from_string("(current in A", &sets).is_err());
}

#[test]
fn parser_rejects_leading_infix_operator() {
    let sets = set_names(&["A"]);
    assert!(Expression::from_string("and current in A", &sets).is_err());
}

#[test]
fn parser_rejects_bare_variable() {
    let sets = set_names(&["A"]);
    // `current` parses but fails validation: it may only stand left of a
    // membership operator.
    assert!(Expression::from_string("current", &sets).is_err());
    assert!(Expression::from_string("current and true", &sets).is_err());
}

#[test]
fn parser_rejects_set_of_set_membership() {
    let sets = set_names(&["A", "B"]);
    // the left operand of `in` must be `current` or `next`
    assert!(Expression::from_string("A in B", &sets).is_err());
    // the right operand must be a set
    assert!(Expression::from_string("current in next", &sets).is_err());
}

#[test]
fn evaluate_membership_and_negation() {
    let table = "
EDGES a
SETS Z, W
START a AT Z
OUTPUT a
a | a | next in W";
    let rt = cifly::Ruletable::from_multiline_string(table).unwrap();
    let sets_input = vec![("Z".to_string(), vec![0usize]), ("W".to_string(), vec![2usize])];
    let sets = cifly::Sets::new(&sets_input, &rt).unwrap();
    let names = set_names(&["Z", "W"]);
    let e = Expression::from_string("current in Z and next not in W", &names).unwrap();
    assert!(e.evaluate(&sets, 0, 1));
    assert!(!e.evaluate(&sets, 0, 2));
    assert!(!e.evaluate(&sets, 1, 1));
    let t = Expression::from_string("true or current in W", &names).unwrap();
    assert!(t.evaluate(&sets, 5, 5));
}

#[test]
fn set_ids_render_in_decimal() {
    let names: Vec<String> = (0..12).map(|i| format!("s{}", i)).collect();
    let e = Expression::from_string("current in s11", &names).unwrap();
    assert_eq!(e.to_string(), "(in current 11)");
}

#[test]
fn parser_rejects_trailing_tokens() {
    let sets = set_names(&["A"]);
    // an unmatched closing brace may not survive the parse
    assert!(Expression::from_string("true)", &sets).is_err());
    assert!(Expression::from_string("(current in A))", &sets).is_err());
    assert!(Expression::from_string("true) and true", &sets).is_err());
}
