use model_checker::ltl::LTLFormulae;
use model_checker::parser::ltl_parser::parse_ltl;
use model_checker::parser::scanner::{ParseError, ParseErrorKind};

fn text(input: &str) -> String {
    parse_ltl(input).unwrap().to_string()
}

#[test]
fn globally_until() {
    assert_eq!(text("G ( a U b )"), "¬(true U ¬(a U b))");
}

#[test]
fn eventually_is_until_from_true() {
    assert_eq!(text("F a"), "(true U a)");
}

#[test]
fn disjunction_and_implication_by_conjunction() {
    assert_eq!(text("a || b"), "¬(¬a ∧ ¬b)");
    assert_eq!(text("a -> b"), "¬(a ∧ ¬b)");
    assert_eq!(text("a && b"), "(a ∧ b)");
}

#[test]
fn next_and_not() {
    assert_eq!(text("X !a"), "X¬a");
    assert_eq!(text("!X a U b"), "(¬Xa U b)");
}

#[test]
fn path_quantifier_letters_are_words() {
    assert_eq!(text("A U E"), "(A U E)");
}

#[test]
fn release_and_weak_until_are_reserved() {
    assert_eq!(
        parse_ltl("a R b").unwrap_err(),
        ParseError { kind: ParseErrorKind::ReservedOperator, position: 2 }
    );
    assert_eq!(
        parse_ltl("a W b").unwrap_err(),
        ParseError { kind: ParseErrorKind::ReservedOperator, position: 2 }
    );
}

#[test]
fn ltl_display_and_clone() {
    let f = LTLFormulae::Until(
        Box::new(LTLFormulae::True),
        Box::new(LTLFormulae::Next(Box::new(LTLFormulae::Atomic("p".to_string())))),
    );
    assert_eq!(f.to_string(), "(true U Xp)");
    assert_eq!(f.clone().to_string(), "(true U Xp)");
}
