use model_checker::ctl::CTLFormulae;
use model_checker::parser::ctl_parser::{parse_ctl, parse_ctl_noting};
use model_checker::parser::scanner::{ParseError, ParseErrorKind};

fn shape(text: &str) -> String {
    format!("{:?}", parse_ctl(text).unwrap())
}

fn key(text: &str) -> String {
    parse_ctl(text).unwrap().get_str()
}

fn error(text: &str) -> ParseError {
    match parse_ctl(text) {
        Err(e) => e,
        Ok(f) => panic!("{:?}", f),
    }
}

fn atom(name: &str) -> Box<CTLFormulae> {
    Box::new(CTLFormulae::Atomic(name.to_string()))
}

#[test]
fn the_example_of_the_grammar() {
    let expected = CTLFormulae::All(Box::new(CTLFormulae::Globally(Box::new(CTLFormulae::Or(
        Box::new(CTLFormulae::Not(atom("s"))),
        Box::new(CTLFormulae::All(Box::new(CTLFormulae::Finally(atom("h"))))),
    )))));
    assert_eq!(shape("AG(s -> AF h)"), format!("{:?}", expected));
}

#[test]
fn atoms_and_true() {
    assert_eq!(shape("p"), format!("{:?}", CTLFormulae::Atomic("p".to_string())));
    assert_eq!(shape("  q_1  "), format!("{:?}", CTLFormulae::Atomic("q_1".to_string())));
    assert_eq!(shape("true"), format!("{:?}", CTLFormulae::True));
    assert_eq!(shape("truex"), format!("{:?}", CTLFormulae::Atomic("truex".to_string())));
    assert_eq!(shape("Up"), format!("{:?}", CTLFormulae::Atomic("Up".to_string())));
}

#[test]
fn quantified_temporal_operators() {
    assert_eq!(key("EX p"), "EXp");
    assert_eq!(key("EG p"), "EGp");
    assert_eq!(key("EF p"), "EFp");
    assert_eq!(key("AXp"), "AXp");
    assert_eq!(key("E(p U q)"), "E(pUq)");
    assert_eq!(key("A(a U (b \\/ c))"), "A(aU(b||c))");
    assert_eq!(key("A(p R q)"), "A(pRq)");
    assert_eq!(key("E ( p R q )"), "E(pRq)");
}

#[test]
fn connectives_group_to_the_left() {
    assert_eq!(key("a && b || c"), "((a&&b)||c)");
    assert_eq!(key("a || b && c"), "((a||b)&&c)");
    assert_eq!(key("a -> b -> c"), "(!(!a||b)||c)");
    assert_eq!(key("a && (b || c)"), "(a&&(b||c))");
}

#[test]
fn negation_binds_more_than_connectives() {
    assert_eq!(key("!a && b"), "(!a&&b)");
    assert_eq!(key("!!a"), "!!a");
    assert_eq!(key("!(a && b)"), "!(a&&b)");
    assert_eq!(key("!EX a || b"), "(!EXa||b)");
}

#[test]
fn until_groups_to_the_right_and_binds_more_than_connectives() {
    assert_eq!(key("E(a U E(b U c))"), "E(aUE(bUc))");
    assert_eq!(key("E((a && b) U c)"), "E((a&&b)Uc)");
    assert_eq!(
        error("E(a && b U c)"),
        ParseError { kind: ParseErrorKind::UnquantifiedTemporalOperator, position: 4 }
    );
    assert_eq!(
        error("A(a U b U c)"),
        ParseError { kind: ParseErrorKind::UnquantifiedTemporalOperator, position: 4 }
    );
}

#[test]
fn implication_is_not_left_or_right() {
    let expected = CTLFormulae::Or(Box::new(CTLFormulae::Not(atom("a"))), atom("b"));
    assert_eq!(shape("a -> b"), format!("{:?}", expected));
    assert_eq!(shape("a → b"), format!("{:?}", expected));
}

#[test]
fn other_spellings() {
    assert_eq!(key("¬a ∧ b ∨ c"), "((!a&&b)||c)");
    assert_eq!(key("~a & b | c"), "((!a&&b)||c)");
    assert_eq!(key("a /\\ b \\/ c"), "((a&&b)||c)");
}

#[test]
fn a_quantifier_written_twice_is_read_once() {
    assert_eq!(key("AAX p"), "AXp");
    assert_eq!(key("E E G p"), "EGp");
}

#[test]
fn mixed_quantifiers_are_refused() {
    assert_eq!(
        error("A E X p"),
        ParseError { kind: ParseErrorKind::MixedQuantifiers, position: 0 }
    );
    assert_eq!(
        error("p && EAG p"),
        ParseError { kind: ParseErrorKind::MixedQuantifiers, position: 5 }
    );
}

#[test]
fn a_quantifier_needs_a_temporal_operator() {
    assert_eq!(
        error("A p"),
        ParseError { kind: ParseErrorKind::MissingTemporalOperator, position: 0 }
    );
    assert_eq!(
        error("E(a && b)"),
        ParseError { kind: ParseErrorKind::MissingTemporalOperator, position: 0 }
    );
    assert_eq!(
        error("A a U b"),
        ParseError { kind: ParseErrorKind::MissingTemporalOperator, position: 0 }
    );
}

#[test]
fn a_temporal_operator_needs_a_quantifier() {
    assert_eq!(
        error("X p"),
        ParseError { kind: ParseErrorKind::UnquantifiedTemporalOperator, position: 0 }
    );
    assert_eq!(
        error("a U b"),
        ParseError { kind: ParseErrorKind::UnquantifiedTemporalOperator, position: 0 }
    );
    assert_eq!(
        error("!F p"),
        ParseError { kind: ParseErrorKind::UnquantifiedTemporalOperator, position: 0 }
    );
    assert_eq!(
        error("a && G b"),
        ParseError { kind: ParseErrorKind::UnquantifiedTemporalOperator, position: 2 }
    );
    assert_eq!(
        error("E X X p"),
        ParseError { kind: ParseErrorKind::UnquantifiedTemporalOperator, position: 2 }
    );
}

#[test]
fn weak_until_is_reserved() {
    assert_eq!(
        error("A(a W b)"),
        ParseError { kind: ParseErrorKind::ReservedOperator, position: 4 }
    );
}

#[test]
fn broken_texts() {
    assert_eq!(error(""), ParseError { kind: ParseErrorKind::UnexpectedEnd, position: 0 });
    assert_eq!(error("   "), ParseError { kind: ParseErrorKind::UnexpectedEnd, position: 3 });
    assert_eq!(error("a &&"), ParseError { kind: ParseErrorKind::UnexpectedEnd, position: 4 });
    assert_eq!(error("(a"), ParseError { kind: ParseErrorKind::UnclosedGroup, position: 2 });
    assert_eq!(
        error("(a b)"),
        ParseError { kind: ParseErrorKind::UnclosedGroup, position: 3 }
    );
    assert_eq!(
        error("a )"),
        ParseError { kind: ParseErrorKind::UnexpectedCharacter, position: 2 }
    );
    assert_eq!(
        error("$"),
        ParseError { kind: ParseErrorKind::UnexpectedCharacter, position: 0 }
    );
    assert_eq!(
        error("a && 1"),
        ParseError { kind: ParseErrorKind::UnexpectedCharacter, position: 5 }
    );
    assert_eq!(
        error("A(a U (b \\/ c)))"),
        ParseError { kind: ParseErrorKind::UnexpectedCharacter, position: 15 }
    );
}

#[test]
fn positions_count_characters() {
    assert_eq!(
        error("¬¬a ∧ $"),
        ParseError { kind: ParseErrorKind::UnexpectedCharacter, position: 6 }
    );
}

#[test]
fn quantifiers_written_twice_are_counted() {
    let (f, twice) = parse_ctl_noting("AG p").unwrap();
    assert_eq!((f.get_str().as_str(), twice), ("AGp", 0));
    let (f, twice) = parse_ctl_noting("AAG p").unwrap();
    assert_eq!((f.get_str().as_str(), twice), ("AGp", 1));
    let (f, twice) = parse_ctl_noting("A A (A G p)").unwrap();
    assert_eq!((f.get_str().as_str(), twice), ("AGp", 2));
    let (f, twice) = parse_ctl_noting("EEX p && !(AAF q || E E E(a U b))").unwrap();
    assert_eq!((f.get_str().as_str(), twice), ("(EXp&&!(AFq||E(aUb)))", 4));
    assert_eq!(
        parse_ctl_noting("AAE X p").unwrap_err(),
        ParseError { kind: ParseErrorKind::MixedQuantifiers, position: 1 }
    );
}
