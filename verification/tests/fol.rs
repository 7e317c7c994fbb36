use metacat::fol::{pretty_print_fol, to_subscript, FOL};
use metacat::lang::Obj;
use metacat::term::Tree;

#[test]
fn subscripts_every_digit() {
    assert_eq!(to_subscript(0), "₀");
    assert_eq!(to_subscript(1203), "₁₂₀₃");
    assert_eq!(to_subscript(987654), "₉₈₇₆₅₄");
}

#[test]
fn prints_provable_implication_infix() {
    let t = Tree::Node(
        FOL::Provable,
        vec![Tree::Node(FOL::Implies, vec![Tree::Leaf(0, Obj), Tree::Leaf(12, Obj)])],
    );
    assert_eq!(pretty_print_fol(&t), "⊢ (𝑥₀ → 𝑥₁₂)");
}

#[test]
fn quantifier_prints_its_variable_first() {
    let t = Tree::Node(FOL::Forall, vec![Tree::Node(FOL::True, vec![]), Tree::Leaf(3, Obj)]);
    assert_eq!(pretty_print_fol(&t), "∀𝑥₃.⊤");
    let t = Tree::Node(FOL::Exists, vec![Tree::Node(FOL::Not, vec![Tree::Leaf(1, Obj)]), Tree::Leaf(2, Obj)]);
    assert_eq!(pretty_print_fol(&t), "∃𝑥₂.¬𝑥₁");
}

#[test]
fn connectives_and_phi() {
    let t = Tree::Node(
        FOL::Or,
        vec![
            Tree::Node(FOL::And, vec![Tree::Leaf(0, Obj), Tree::Leaf(1, Obj)]),
            Tree::Node(FOL::Equiv, vec![Tree::Leaf(2, Obj), Tree::Node(FOL::Phi, vec![Tree::Leaf(3, Obj), Tree::Leaf(4, Obj)])]),
        ],
    );
    assert_eq!(pretty_print_fol(&t), "((𝑥₀ ∧ 𝑥₁) ∨ (𝑥₂ ↔ φ(𝑥₃, 𝑥₄)))");
}

#[test]
fn other_arities_fall_back_to_prefix() {
    let t = Tree::Node(FOL::And, vec![Tree::Leaf(1, Obj)]);
    assert_eq!(pretty_print_fol(&t), "∧(𝑥₁)");
    let t = Tree::Node(FOL::Forall, vec![Tree::Leaf(1, Obj)]);
    assert_eq!(pretty_print_fol(&t), "∀ (𝑥₁)");
    let t = Tree::Node(FOL::True, vec![Tree::Leaf(1, Obj), Tree::Leaf(2, Obj)]);
    assert_eq!(pretty_print_fol(&t), "⊤(𝑥₁, 𝑥₂)");
}

#[test]
fn biprofiles_of_symbols() {
    assert_eq!(FOL::Forall.biprofile(), (2, 1));
    assert_eq!(FOL::Not.biprofile(), (1, 1));
    assert_eq!(FOL::True.biprofile(), (0, 1));
}

#[test]
fn renders_terms_with_typed_variables() {
    let t: Tree<&str, &str> = Tree::Node("f", vec![Tree::Leaf(0, "a"), Tree::Node("g", vec![])]);
    assert_eq!(t.render(), "f((0 : a), g())");
}
