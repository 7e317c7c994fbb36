use metacat::analysis::ArrowSpanLabel;
use metacat::arrow_details::{
    arrow_details_from, leading_typevars_in, raw_typevar_mismatch_error, scan_arrow_declarations, select_declaration,
    source_variables_in_frobenius, top_level_tokens,
};

const MISMATCH: &str = r#"(theory fol.syntax nat {
  (arr wff : 1 -> 1)
})

(theory fol.proof fol.syntax {
  (arr bad : ([ph . ph] wff) -> ([ps . ps] wff))
})"#;

#[test]
fn arrow_details_reports_source_target_metavariable_mismatch() {
    let declarations = scan_arrow_declarations(MISMATCH);
    let bad = declarations.iter().find(|d| d.name.text == "bad").unwrap();
    assert_eq!(bad.theory, "fol.proof");
    assert_eq!(bad.declaration_kind, "arr");
    assert_eq!(bad.source_typevars, vec!["ph"]);
    assert_eq!(bad.target_typevars, vec!["ps"]);
    let span = ArrowSpanLabel {
        source: "wff(m0)".to_string(),
        target: "wff(m0)".to_string(),
        source_metavariable_count: 1,
        target_metavariable_count: 1,
        error: None,
    };
    let details = arrow_details_from(bad, Some(span)).unwrap();
    assert_eq!(details.source, "wff(m0)");
    assert_eq!(details.target, "wff(m0)");
    assert_eq!(details.metavariables, ["ph"]);
    assert_eq!(details.pretty_metavariables, ["m0"]);
    assert_eq!(
        details.error.as_deref(),
        Some("Source and target terms have different metavariables: source {ph}, target {ps}.")
    );
}

#[test]
fn raw_mismatch_alone_still_gives_details() {
    let declarations = scan_arrow_declarations(MISMATCH);
    let bad = declarations.iter().find(|d| d.name.text == "bad").unwrap();
    assert!(raw_typevar_mismatch_error(bad).is_some());
    let details = arrow_details_from(bad, None).unwrap();
    assert_eq!(details.source, "");
    assert_eq!(details.metavariables, ["ph"]);
    let wff = declarations.iter().find(|d| d.name.text == "wff").unwrap();
    assert!(raw_typevar_mismatch_error(wff).is_none());
    assert!(arrow_details_from(wff, None).is_none());
}

#[test]
fn declarations_take_metavariables_from_the_apex_spider() {
    let text = r#"(theory fol.proof fol.syntax {
  (arr ax : {wff wff} -> ([ph ps . ph ps] -> |-))
  (def win : {wff wff} -> wff = (wi))
})
(def fol.proof boxed : 1 -> 1 = wff)"#;
    let declarations = scan_arrow_declarations(text);
    let names: Vec<&str> = declarations.iter().map(|d| d.name.text.as_str()).collect();
    assert_eq!(names, ["ax", "win", "boxed"]);
    assert_eq!(declarations[0].metavariables, ["ph", "ps"]);
    assert!(declarations[0].source_typevars.is_empty());
    assert_eq!(declarations[1].declaration_kind, "def");
    assert_eq!(declarations[2].theory, "fol.proof");
    let span = ArrowSpanLabel {
        source: "{wff(m0), wff(m1)}".to_string(),
        target: "|-(m0 -> m1)".to_string(),
        source_metavariable_count: 2,
        target_metavariable_count: 2,
        error: None,
    };
    let details = arrow_details_from(&declarations[0], Some(span)).unwrap();
    assert_eq!(details.name, "ax");
    assert_eq!(details.metavariables, ["ph", "ps"]);
    assert_eq!(details.pretty_metavariables, ["m0", "m1"]);
    assert_eq!(details.error, None);
}

#[test]
fn declaration_under_the_cursor_is_selected() {
    let text = "(theory t nat {\n  (arr a : 1 -> 1)\n  (arr b : a -> a)\n})";
    let declarations = scan_arrow_declarations(text);
    let offset = text.find("a -> a").unwrap();
    let token = metacat::syntax::token_at(text, offset, metacat::syntax::CharClass::Operation);
    let chosen = select_declaration(&declarations, token.as_ref(), offset).unwrap();
    assert_eq!(declarations[chosen].name.text, "a");
    let offset = text.find("-> a)").unwrap() + 1;
    let token = metacat::syntax::token_at(text, offset, metacat::syntax::CharClass::Operation);
    let chosen = select_declaration(&declarations, token.as_ref(), offset).unwrap();
    assert_eq!(declarations[chosen].name.text, "b");
}

#[test]
fn tokens_and_typevars() {
    let text = "(arr f : {x} -> [a b . c] # note\n )";
    let tokens = top_level_tokens(text, 1, text.len() - 1);
    let words: Vec<&str> = tokens.iter().map(|t| t.text.as_str()).collect();
    assert_eq!(words, ["arr", "f", ":", "->"]);
    assert_eq!(source_variables_in_frobenius("[a b a . c]", 0).unwrap(), ["a", "b"]);
    assert_eq!(leading_typevars_in(" ({x [p q . r]} y)"), ["p", "q"]);
    assert!(leading_typevars_in(" wff ").is_empty());
}
