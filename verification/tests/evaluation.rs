use tautology::evaluator::{eval, EvalResult};
use tautology::parser::generate;

fn expect_tautology(formula: &str) {
    let parser = generate(formula).unwrap();
    match eval(&parser) {
        EvalResult::Tautology => {}
        EvalResult::NotTautology(w) => {
            panic!("{} judged falsifiable at {:?}", formula, w);
        }
    }
}

fn expect_witness(formula: &str, expected: Vec<(char, bool)>) {
    let parser = generate(formula).unwrap();
    match eval(&parser) {
        EvalResult::Tautology => panic!("{} judged a tautology", formula),
        EvalResult::NotTautology(w) => assert_eq!(w, expected),
    }
}

#[test]
fn contraposed_negation_is_a_tautology() {
    expect_tautology("(¬(p → q) → (p → ¬q))");
}

#[test]
fn weakened_conjunction_is_a_tautology() {
    expect_tautology("((p → (q ∧ r)) → ((p → q) ∨ (q → r)))");
}

#[test]
fn false_antecedent_is_a_tautology() {
    expect_tautology("(⊥ → p)");
}

#[test]
fn excluded_middle_in_disguise_is_a_tautology() {
    expect_tautology("(p ∨ (p → (q ∧ ¬q)))");
}

#[test]
fn peirce_formula_is_a_tautology() {
    expect_tautology("(((p → q) → p) → p)");
}

#[test]
fn reversed_contraposition_has_all_false_witness() {
    expect_witness("((p → ¬q) → ¬(p → q))", vec![('p', false), ('q', false)]);
}

#[test]
fn disjoined_implications_have_first_witness() {
    // p true, q false, r false: the antecedent holds through q → r,
    // but p → (q ∨ r) fails; assignment 1 is the first falsifier.
    expect_witness(
        "(((p → q) ∨ (q → r)) → (p → (q ∨ r)))",
        vec![('p', true), ('q', false), ('r', false)],
    );
}

#[test]
fn nested_implications_have_all_true_witness() {
    expect_witness(
        "((((p → q) → p) → q) → ¬p)",
        vec![('p', true), ('q', true)],
    );
}

#[test]
fn true_antecedent_needs_its_consequent() {
    expect_witness("(T → p)", vec![('p', false)]);
}

#[test]
fn constant_formula_is_checked_on_one_assignment() {
    expect_tautology("(⊥ → ⊥)");
    expect_tautology("(T → T)");
    expect_tautology("T");
    expect_tautology("¬⊥");
}

#[test]
fn constant_formula_can_fail_with_empty_witness() {
    expect_witness("⊥", vec![]);
    expect_witness("(T → ⊥)", vec![]);
}

#[test]
fn single_variable_is_not_a_tautology() {
    expect_witness("a", vec![('a', false)]);
}

#[test]
fn repeated_evaluation_returns_the_same_witness() {
    let parser = generate("((p → ¬q) → ¬(p → q))").unwrap();
    let first = match eval(&parser) {
        EvalResult::NotTautology(w) => w,
        EvalResult::Tautology => panic!("judged a tautology"),
    };
    let second = match eval(&parser) {
        EvalResult::NotTautology(w) => w,
        EvalResult::Tautology => panic!("judged a tautology"),
    };
    assert_eq!(first, second);
}

#[test]
fn witness_lists_variables_in_ascending_letter_order() {
    // z comes first in the text but last in the witness.
    expect_witness("(z ∧ a)", vec![('a', false), ('z', false)]);
}

#[test]
fn witness_can_set_a_later_variable_true() {
    // a=false, b=false and a=true satisfy the formula; the first
    // falsifier is assignment 2: a=false, b=true.
    expect_witness("(a ∨ ¬b)", vec![('a', false), ('b', true)]);
}
