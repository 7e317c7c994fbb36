use metacat::declaration::{declarations_from_text, Declaration, DeclarationError};
use metacat::expr::{parse_hexprs, Expr};

#[test]
fn declarations_of_each_theory_are_read_in_order() {
    let decls = declarations_from_text(
        "(object wff : 1 -> 1) (arrow wn : wff -> wff) (def-arrow win : {wff wff} -> wff = (wn))",
    )
    .unwrap();
    assert_eq!(decls.len(), 3);
    assert_eq!((decls[0].theory.as_str(), decls[0].name.as_str()), ("object", "wff"));
    assert_eq!((decls[1].theory.as_str(), decls[1].name.as_str()), ("arrow", "wn"));
    assert_eq!((decls[2].theory.as_str(), decls[2].name.as_str()), ("def-arrow", "win"));
    assert!(decls[0].definition.is_none());
    assert!(matches!(&decls[0].source_map, Expr::Operation(op) if op == "1"));
    assert!(matches!(&decls[2].source_map, Expr::Tensor(parts) if parts.len() == 2));
    assert!(matches!(&decls[2].definition, Some(Expr::Composition(parts)) if parts.len() == 1));
}

#[test]
fn other_shapes_and_theories_are_not_declarations() {
    let h = |t: &str| parse_hexprs(t).unwrap().remove(0);
    assert!(Declaration::try_from_hexpr(&h("(theory wff : 1 -> 1)")).is_none());
    assert!(Declaration::try_from_hexpr(&h("(object wff 1 -> 1)")).is_none());
    assert!(Declaration::try_from_hexpr(&h("(object wff : 1 -> 1 = x y)")).is_none());
    assert!(Declaration::try_from_hexpr(&h("(object {wff} : 1 -> 1)")).is_none());
    assert!(Declaration::try_from_hexpr(&h("{object wff : 1 -> 1}")).is_none());
    assert!(Declaration::try_from_hexpr(&h("(arrow f : 1 -> 1 = g)")).is_some());
}

#[test]
fn the_first_item_that_is_not_a_declaration_is_the_error() {
    match declarations_from_text("(object a : 1 -> 1) (thing b : 1 -> 1) (other)") {
        Err(DeclarationError::InvalidDeclaration(Expr::Composition(parts))) => {
            assert!(matches!(&parts[0], Expr::Operation(op) if op == "thing"));
        }
        _ => panic!("expected an invalid declaration"),
    }
    assert!(matches!(declarations_from_text("(object"), Err(DeclarationError::Parse(_))));
}
