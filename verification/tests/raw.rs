use metacat::expr::Expr;
use metacat::raw::{MergeRawError, ParseRawError, RawFile, RawTheory, RawTheorySet};

const TWO_THEORIES: &str = r#"
    (theory fol.syntax nat {
      (arr wff : 1 -> 1)
      (arr -> : 2 -> 1)
    })

    (theory fol.proof fol.syntax {
      (arr wi : {wff wff} -> (-> wff))
      (def win : {wff wff} -> (-> -. wff) = (wi))
    })
"#;

#[test]
fn ast_parse_raw_file() {
    let raw = RawTheorySet::from_text(TWO_THEORIES).unwrap();
    assert_eq!(raw.theories.len(), 2);
    assert!(raw.extensions.is_empty());
    assert!(raw.theory("fol.syntax").is_some());
    assert!(raw.theory("fol.proof").is_some());
}

#[test]
fn ast_invalid_theory_reports_error() {
    let err = RawTheorySet::from_text(
        r#"
        (theory fol.syntax nat
          (arr wff : 1 -> 1)
        )
        "#,
    )
    .unwrap_err();
    assert!(matches!(err, ParseRawError::InvalidTheoryDeclaration(_)));
}

#[test]
fn raw_theory_sets_merge() {
    let lhs = RawTheorySet::from_text(
        r#"
        (theory fol.syntax nat {
          (arr wff : 1 -> 1)
        })
        "#,
    )
    .unwrap();
    let rhs = RawTheorySet::from_text(
        r#"
        (theory fol.syntax nat {
          (arr -> : 2 -> 1)
        })
        "#,
    )
    .unwrap();
    let merged = lhs.merge(rhs).unwrap();
    let theory = merged.theory("fol.syntax").unwrap();
    assert_eq!(theory.arrows.len(), 2);
}

#[test]
fn parse_top_level_definition_as_extension() {
    let raw = RawTheorySet::from_text(
        r#"
        (theory fol.syntax nat {
          (arr wff : 1 -> 1)
        })

        (def fol.syntax boxed : 1 -> 1 = wff)
        "#,
    )
    .unwrap();
    assert_eq!(raw.extensions.len(), 1);
    let ext = &raw.extensions[0];
    assert_eq!(ext.theory, "fol.syntax");
    assert!(ext.arrow("boxed").is_some());
}

#[test]
fn merge_rejects_duplicate_arrows() {
    let lhs = RawTheorySet::from_text("(theory fol.syntax nat { (arr wff : 1 -> 1) })").unwrap();
    let rhs = RawTheorySet::from_text("(theory fol.syntax nat { (arr wff : 1 -> 1) })").unwrap();
    let err = lhs.merge(rhs).unwrap_err();
    assert!(matches!(err, MergeRawError::DuplicateArrow { .. }));
}

#[test]
fn new_syntax_parse_raw_file() {
    let raw = RawFile::from_text(TWO_THEORIES).unwrap();
    assert_eq!(raw.theories.len(), 2);
    assert!(raw.contains_theory("fol.syntax"));
    assert!(raw.contains_theory("fol.proof"));
}

#[test]
fn new_syntax_invalid_theory_reports_error() {
    let err = RawFile::from_text("(theory fol.syntax nat (arr wff : 1 -> 1))").unwrap_err();
    assert!(matches!(err, ParseRawError::InvalidTheoryDeclaration(_)));
}

#[test]
fn raw_file_rejects_top_level_definitions() {
    let err = RawFile::from_text("(def fol.syntax boxed : 1 -> 1 = wff)").unwrap_err();
    assert!(matches!(err, ParseRawError::InvalidTheoryDeclaration(_)));
}

#[test]
fn theories_are_kept_sorted_by_name() {
    let raw = RawTheorySet::from_text(
        "(theory zeta nat { (arr b : 1 -> 1) (arr a : 1 -> 1) }) (theory alpha nat {})",
    )
    .unwrap();
    assert_eq!(raw.theories[0].name, "alpha");
    assert_eq!(raw.theories[1].name, "zeta");
    let zeta = raw.theory("zeta").unwrap();
    assert_eq!(zeta.arrows[0].name, "a");
    assert_eq!(zeta.arrows[1].name, "b");
    assert!(zeta.arrow("a").is_some());
    assert!(zeta.arrow("c").is_none());
}

#[test]
fn duplicate_theory_is_reported() {
    let err = RawTheorySet::from_text("(theory t nat {}) (theory t nat {})").unwrap_err();
    assert!(matches!(err, ParseRawError::DuplicateTheory(ref n) if n == "t"));
    let err = RawFile::from_text("(theory t nat {}) (theory t nat {})").unwrap_err();
    assert!(matches!(err, ParseRawError::DuplicateTheory(ref n) if n == "t"));
}

#[test]
fn malformed_top_level_definition_is_reported() {
    let err = RawTheorySet::from_text("(def t f : 1 -> 1)").unwrap_err();
    assert!(matches!(err, ParseRawError::InvalidTopLevelDefinition(_)));
}

#[test]
fn unparsable_text_is_a_parse_error() {
    let err = RawTheorySet::from_text("(theory t nat {").unwrap_err();
    assert!(matches!(err, ParseRawError::Parse(_)));
}

#[test]
fn from_hexpr_names_the_bad_arrow_declaration() {
    let hexprs = metacat::expr::parse_hexprs("(theory t nat { (arr a : 1 -> 1) (bogus) })").unwrap();
    let item = hexprs.into_iter().next().unwrap();
    let err = RawTheory::from_hexpr(item).unwrap_err();
    match err {
        ParseRawError::InvalidArrowDeclaration { theory, declaration } => {
            assert_eq!(theory, "t");
            assert!(matches!(declaration, Expr::Composition(_)));
        }
        other => panic!("unexpected error {:?}", other),
    }
    let hexprs = metacat::expr::parse_hexprs("(theory t nat { (arr a : 1 -> 1) (arr a : 2 -> 1) })").unwrap();
    let item = hexprs.into_iter().next().unwrap();
    let err = RawTheory::from_hexpr(item).unwrap_err();
    assert!(matches!(err, ParseRawError::DuplicateArrow { ref theory, ref arrow } if theory == "t" && arrow == "a"));
}

#[test]
fn merge_with_empty_set_keeps_theories() {
    let lhs = RawTheorySet::from_text(TWO_THEORIES).unwrap();
    let rhs = RawTheorySet::from_text("").unwrap();
    let merged = lhs.merge(rhs).unwrap();
    assert_eq!(merged.theories.len(), 2);
    assert_eq!(merged.theory("fol.syntax").unwrap().arrows.len(), 2);
}

#[test]
fn merge_of_disjoint_sets_is_their_union() {
    let lhs = RawTheorySet::from_text("(theory a nat {}) (def a f : 1 -> 1 = g)").unwrap();
    let rhs = RawTheorySet::from_text("(theory b a {}) (def b h : 1 -> 1 = k)").unwrap();
    let merged = lhs.merge(rhs).unwrap();
    assert_eq!(merged.theories.len(), 2);
    assert_eq!(merged.extensions.len(), 2);
    assert_eq!(merged.extensions[0].theory, "a");
    assert_eq!(merged.extensions[1].theory, "b");
}

#[test]
fn merge_reports_syntax_mismatch() {
    let lhs = RawTheorySet::from_text("(theory t nat {})").unwrap();
    let rhs = RawTheorySet::from_text("(theory t other {})").unwrap();
    let err = lhs.merge(rhs).unwrap_err();
    match err {
        MergeRawError::SyntaxMismatch { theory, left, right } => {
            assert_eq!(theory, "t");
            assert_eq!(left, "nat");
            assert_eq!(right, "other");
        }
        other => panic!("unexpected error {:?}", other),
    }
}

#[test]
fn merge_reports_first_shared_arrow_in_name_order() {
    let lhs = RawTheorySet::from_text("(theory t nat { (arr c : 1 -> 1) (arr b : 1 -> 1) })").unwrap();
    let rhs = RawTheorySet::from_text("(theory t nat { (arr c : 1 -> 1) (arr b : 1 -> 1) })").unwrap();
    let err = lhs.merge(rhs).unwrap_err();
    assert!(matches!(err, MergeRawError::DuplicateArrow { ref arrow, .. } if arrow == "b"));
}
