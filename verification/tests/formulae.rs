use model_checker::ctl::{to_normal_form, to_normal_form_rec, CTLFormulae};

fn atom(name: &str) -> CTLFormulae {
    CTLFormulae::Atomic(name.to_string())
}

fn not(f: CTLFormulae) -> CTLFormulae {
    CTLFormulae::Not(Box::new(f))
}

fn and(f: CTLFormulae, g: CTLFormulae) -> CTLFormulae {
    CTLFormulae::And(Box::new(f), Box::new(g))
}

fn or(f: CTLFormulae, g: CTLFormulae) -> CTLFormulae {
    CTLFormulae::Or(Box::new(f), Box::new(g))
}

fn all(f: CTLFormulae) -> CTLFormulae {
    CTLFormulae::All(Box::new(f))
}

fn exist(f: CTLFormulae) -> CTLFormulae {
    CTLFormulae::Exist(Box::new(f))
}

fn next(f: CTLFormulae) -> CTLFormulae {
    CTLFormulae::Next(Box::new(f))
}

fn finally(f: CTLFormulae) -> CTLFormulae {
    CTLFormulae::Finally(Box::new(f))
}

fn globally(f: CTLFormulae) -> CTLFormulae {
    CTLFormulae::Globally(Box::new(f))
}

fn until(f: CTLFormulae, g: CTLFormulae) -> CTLFormulae {
    CTLFormulae::Until(Box::new(f), Box::new(g))
}

fn release(f: CTLFormulae, g: CTLFormulae) -> CTLFormulae {
    CTLFormulae::Release(Box::new(f), Box::new(g))
}

fn shape(f: &CTLFormulae) -> String {
    format!("{:?}", f)
}

#[test]
fn keys_of_every_constructor() {
    assert_eq!(CTLFormulae::True.get_str(), "true");
    assert_eq!(atom("p").get_str(), "p");
    assert_eq!(not(atom("p")).get_str(), "!p");
    assert_eq!(and(atom("p"), atom("q")).get_str(), "(p&&q)");
    assert_eq!(or(atom("p"), atom("q")).get_str(), "(p||q)");
    assert_eq!(all(next(atom("p"))).get_str(), "AXp");
    assert_eq!(exist(finally(atom("p"))).get_str(), "EFp");
    assert_eq!(exist(globally(atom("p"))).get_str(), "EGp");
    assert_eq!(exist(until(atom("p"), atom("q"))).get_str(), "E(pUq)");
    assert_eq!(all(release(atom("p"), atom("q"))).get_str(), "A(pRq)");
}

#[test]
fn display_of_every_constructor() {
    assert_eq!(CTLFormulae::True.to_string(), "true");
    assert_eq!(atom("p").to_string(), "p");
    assert_eq!(not(atom("p")).to_string(), "¬p");
    assert_eq!(and(atom("p"), atom("q")).to_string(), "(p ∧ q)");
    assert_eq!(or(atom("p"), atom("q")).to_string(), "(p ∨ q)");
    assert_eq!(all(next(atom("p"))).to_string(), "AXp");
    assert_eq!(exist(finally(atom("p"))).to_string(), "EFp");
    assert_eq!(exist(globally(atom("p"))).to_string(), "EGp");
    assert_eq!(exist(until(atom("p"), atom("q"))).to_string(), "E(p U q)");
    assert_eq!(all(release(atom("p"), atom("q"))).to_string(), "A(p R q)");
}

#[test]
fn clone_keeps_the_tree() {
    let f = all(until(atom("a"), or(atom("b"), not(atom("c")))));
    assert_eq!(shape(&f.clone()), shape(&f));
}

#[test]
fn all_next_becomes_not_exist_next_not() {
    let out = to_normal_form_rec(all(next(atom("p"))));
    assert_eq!(shape(&out), shape(&not(exist(next(not(atom("p")))))));
}

#[test]
fn all_finally_becomes_not_exist_globally_not() {
    let out = to_normal_form_rec(all(finally(atom("p"))));
    assert_eq!(shape(&out), shape(&not(exist(globally(not(atom("p")))))));
}

#[test]
fn all_globally_takes_two_passes() {
    let once = to_normal_form_rec(all(globally(atom("p"))));
    assert_eq!(shape(&once), shape(&not(exist(finally(not(atom("p")))))));
    let twice = to_normal_form(all(globally(atom("p"))));
    assert_eq!(
        shape(&twice),
        shape(&not(exist(until(CTLFormulae::True, not(atom("p"))))))
    );
}

#[test]
fn exist_finally_becomes_exist_until() {
    let out = to_normal_form_rec(exist(finally(atom("p"))));
    assert_eq!(shape(&out), shape(&exist(until(CTLFormulae::True, atom("p")))));
}

#[test]
fn all_until_normal_form() {
    let out = to_normal_form(all(until(atom("a"), atom("b"))));
    let expected = and(
        not(exist(until(not(atom("b")), and(not(atom("a")), not(atom("b")))))),
        not(exist(globally(not(atom("b"))))),
    );
    assert_eq!(shape(&out), shape(&expected));
    assert_eq!(out.get_str(), "(!E(!bU(!a&&!b))&&!EG!b)");
}

#[test]
fn all_release_becomes_not_exist_until() {
    let out = to_normal_form_rec(all(release(atom("a"), atom("b"))));
    assert_eq!(shape(&out), shape(&not(exist(until(not(atom("a")), not(atom("b")))))));
}

#[test]
fn exist_release_is_expanded() {
    let out = to_normal_form_rec(exist(release(atom("a"), atom("b"))));
    let expected = or(
        exist(until(atom("b"), and(atom("a"), atom("b")))),
        exist(globally(atom("b"))),
    );
    assert_eq!(shape(&out), shape(&expected));
}

#[test]
fn double_negation_is_dropped() {
    let out = to_normal_form_rec(not(not(atom("p"))));
    assert_eq!(shape(&out), shape(&atom("p")));
    let out = to_normal_form_rec(not(not(not(atom("p")))));
    assert_eq!(shape(&out), shape(&not(atom("p"))));
}

#[test]
fn second_pass_drops_the_negations_of_the_first() {
    let out = to_normal_form(all(next(not(atom("p")))));
    assert_eq!(shape(&out), shape(&not(exist(next(atom("p"))))));
}

#[test]
fn operands_of_existential_operators_are_rewritten() {
    let out = to_normal_form(exist(next(all(next(atom("p"))))));
    assert_eq!(shape(&out), shape(&exist(next(not(exist(next(not(atom("p")))))))));
}

#[test]
fn quantifier_over_a_state_formula() {
    let out = to_normal_form_rec(all(atom("p")));
    assert_eq!(shape(&out), shape(&atom("p")));
    let out = to_normal_form_rec(exist(not(not(atom("p")))));
    assert_eq!(shape(&out), shape(&exist(not(not(atom("p"))))));
}

#[test]
fn raw_temporal_operators_keep_their_place() {
    let out = to_normal_form_rec(release(not(not(atom("a"))), finally(atom("b"))));
    assert_eq!(shape(&out), shape(&release(atom("a"), finally(atom("b")))));
}

#[test]
fn normal_form_is_a_fixpoint() {
    let formulae = vec![
        all(globally(or(not(atom("s")), all(finally(atom("h")))))),
        all(until(all(globally(atom("a"))), exist(release(atom("b"), atom("c"))))),
        not(all(next(not(all(next(atom("p"))))))),
        exist(not(not(finally(atom("p"))))),
    ];
    for f in formulae {
        let once = to_normal_form(f);
        let twice = to_normal_form(once.clone());
        assert_eq!(shape(&twice), shape(&once));
    }
}

#[test]
fn the_example_normalizes_to_until() {
    let f = all(globally(or(not(atom("s")), all(finally(atom("h"))))));
    let out = to_normal_form(f);
    assert_eq!(out.get_str(), "!E(trueU!(!s||!EG!h))");
}

#[test]
fn plain_atoms() {
    assert!(and(atom("p"), exist(next(atom("q_1")))).has_plain_atoms());
    assert!(atom("").has_plain_atoms());
    assert!(!atom("true").has_plain_atoms());
    assert!(!atom("Xp").has_plain_atoms());
    assert!(!atom("!p").has_plain_atoms());
    assert!(!atom("(p").has_plain_atoms());
    assert!(!until(atom("a"), atom("bUc")).has_plain_atoms());
    assert!(!or(atom("a"), atom("bRc")).has_plain_atoms());
    assert!(!atom("a&b").has_plain_atoms());
    assert!(!atom("a|b").has_plain_atoms());
    assert!(!atom("a)").has_plain_atoms());
    assert!(atom("pX").has_plain_atoms());
}

#[test]
fn ambiguous_keys_need_unplain_atoms() {
    let f = until(atom("a"), atom("bUc"));
    let g = until(atom("aUb"), atom("c"));
    assert_eq!(f.get_str(), g.get_str());
    assert!(!f.has_plain_atoms());
    assert!(!g.has_plain_atoms());
}

#[test]
fn node_counts() {
    assert_eq!(CTLFormulae::True.node_count(), Some(1));
    assert_eq!(all(until(atom("a"), not(atom("b")))).node_count(), Some(5));
}
