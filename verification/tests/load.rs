use metacat::expr::{parse_hexprs, write_expr, Expr};
use metacat::graph::TheoryId;
use metacat::load::{is_builtin_nat, merge_raw_sets, nat_one_hexpr, normalize_nat_hexpr, normalize_nat_operation, parse_usize, LoadError};
use metacat::raw::{MergeRawError, ParseRawError, RawTheorySet};
use metacat::resolve::{ArrowLookupError, File, Theory, TheorySet};

fn ones(e: &Expr) -> usize {
    match e {
        Expr::Tensor(v) => {
            assert!(v.iter().all(|x| matches!(x, Expr::Operation(o) if o == "1")));
            v.len()
        }
        _ => panic!("not a tensor: {:?}", e),
    }
}

#[test]
fn parses_decimal_numerals_as_std_does() {
    assert_eq!(parse_usize("0"), Some(0));
    assert_eq!(parse_usize("042"), Some(42));
    assert_eq!(parse_usize("+7"), Some(7));
    assert_eq!(parse_usize(""), None);
    assert_eq!(parse_usize("+"), None);
    assert_eq!(parse_usize("-1"), None);
    assert_eq!(parse_usize("1a"), None);
    assert_eq!(parse_usize("99999999999999999999999"), None);
    assert_eq!(parse_usize(&usize::MAX.to_string()), Some(usize::MAX));
    for s in ["0", "12", "+3", "x", "", "18446744073709551616"] {
        assert_eq!(parse_usize(s), s.parse::<usize>().ok());
    }
}

#[test]
fn numerals_become_tensors_of_ones() {
    assert_eq!(ones(&normalize_nat_operation(&"0".to_string())), 0);
    assert_eq!(ones(&normalize_nat_operation(&"3".to_string())), 3);
    assert!(matches!(normalize_nat_operation(&"wff".to_string()), Expr::Operation(ref o) if o == "wff"));
    assert!(matches!(nat_one_hexpr(), Expr::Operation(ref o) if o == "1"));
}

#[test]
fn nested_tensors_are_flattened() {
    let h = parse_hexprs("({2 1} 3)").unwrap().remove(0);
    match normalize_nat_hexpr(&h) {
        Expr::Composition(parts) => {
            assert_eq!(parts.len(), 2);
            assert_eq!(ones(&parts[0]), 3);
            assert_eq!(ones(&parts[1]), 3);
        }
        other => panic!("unexpected {:?}", other),
    }
}

#[test]
fn builtin_nat_is_recognised() {
    assert!(is_builtin_nat(&TheoryId("nat".to_string())));
    assert!(!is_builtin_nat(&TheoryId("natural".to_string())));
}

fn get<'a>(set: &'a TheorySet, name: &str) -> Option<&'a Theory> {
    set.theories.iter().find(|(id, _)| id.0 == name).map(|(_, t)| t)
}

#[test]
fn loads_from_multiple_texts() {
    let file = TheorySet::from_texts(&vec![
        r#"
            (theory fol.syntax nat {
              (arr wff : 1 -> 1)
              (arr -> : 2 -> 1)
            })
            "#
        .to_string(),
        r#"
            (theory fol.proof fol.syntax {
              (arr wi : {wff wff} -> (-> wff))
            })
            "#
        .to_string(),
    ])
    .unwrap();
    assert!(matches!(
        get(&file, "fol.proof"),
        Some(Theory::Theory { syntax, arrows }) if syntax == "fol.syntax" && arrows.len() == 1
    ));
}

#[test]
fn load_loads_multiple_theories() {
    let file = TheorySet::from_text(
        r#"
            (theory fol.syntax nat {
              (arr wff : 1 -> 1)
              (arr -> : 2 -> 1)
              (arr -. : 1 -> 1)
            })

            (theory fol.proof fol.syntax {
              (arr wn : wff -> (-. wff))
              (arr wi : {wff wff} -> (-> wff))
              (def win : {wff wff} -> (-> -. wff) = (wi wn))
            })
            "#,
    )
    .unwrap();
    assert!(matches!(get(&file, "nat"), Some(Theory::Nat)));
    assert!(matches!(get(&file, "fol.syntax"), Some(Theory::Theory { syntax, arrows }) if syntax == "nat" && arrows.len() == 3));
    assert!(matches!(get(&file, "fol.proof"), Some(Theory::Theory { syntax, arrows }) if syntax == "fol.syntax" && arrows.len() == 3));
    assert!(matches!(get(&file, "fol.proof"), Some(Theory::Theory { arrows, .. }) if arrows.iter().any(|a| a.definition.is_some())));
}

#[test]
fn expands_nat_numerals_to_tensors_of_one() {
    let file = TheorySet::from_text(
        r#"
            (theory smol.syntax nat {
              (arr -> : 2 -> 1)
            })
            "#,
    )
    .unwrap();
    let Some(Theory::Theory { arrows, .. }) = get(&file, "smol.syntax") else {
        panic!("expected user theory");
    };
    let arrow = arrows.iter().find(|a| a.name == "->").unwrap();
    assert_eq!(arrow.type_maps.0.hypergraph.edges, vec!["1".to_string(), "1".to_string()]);
    assert_eq!(arrow.type_maps.1.hypergraph.edges, vec!["1".to_string()]);
}

#[test]
fn load_rejects_dependency_cycles() {
    let err = TheorySet::from_text(
        r#"
            (theory a b {
              (arr f : 1 -> 1)
            })
            (theory b a {
              (arr g : f -> f)
            })
            "#,
    )
    .unwrap_err();
    assert!(matches!(err, LoadError::SyntaxCycle(_)));
}

#[test]
fn load_rejects_unknown_syntax_base() {
    let err = TheorySet::from_text(
        r#"
            (theory a missing {
              (arr f : 1 -> 1)
            })
            "#,
    )
    .unwrap_err();
    assert!(matches!(err, LoadError::UnknownSyntaxCategory { .. }));
}

#[test]
fn type_maps_and_definitions_are_interpreted() {
    let file = TheorySet::from_text(
        "(theory s nat { (arr wff : 1 -> 1) (arr -> : 2 -> 1) }) (theory p s { (arr ax : {wff wff} -> (-> wff)) (def d : {wff wff} -> (-> wff) = (ax)) })",
    )
    .unwrap();
    let order: Vec<&str> = file.theories.iter().map(|(id, _)| id.0.as_str()).collect();
    assert!(order.iter().position(|n| *n == "nat").unwrap() < order.iter().position(|n| *n == "s").unwrap());
    assert!(order.iter().position(|n| *n == "s").unwrap() < order.iter().position(|n| *n == "p").unwrap());
    let Some(Theory::Theory { arrows, .. }) = get(&file, "p") else { panic!("expected p") };
    let ax = arrows.iter().find(|a| a.name == "ax").unwrap();
    assert_eq!(ax.type_maps.0.targets.len(), 2);
    assert_eq!(ax.type_maps.1.targets.len(), 1);
    let d = arrows.iter().find(|a| a.name == "d").unwrap();
    assert_eq!(d.definition.as_ref().unwrap().hypergraph.edges, vec!["ax".to_string()]);
}

#[test]
fn unknown_operations_and_domain_mismatches_are_errors() {
    let err = TheorySet::from_text("(theory s nat { (arr wff : 1 -> 1) }) (theory p s { (arr bad : missing -> wff) })").unwrap_err();
    assert!(matches!(err, LoadError::SyntaxInterpret { ref theory, ref arrow, .. } if theory.0 == "p" && arrow == "bad"));
    let err = TheorySet::from_text("(theory s nat { (arr f : x -> 1) })").unwrap_err();
    assert!(matches!(err, LoadError::NatInterpret { .. }));
    let err = TheorySet::from_text("(theory s nat { (arr f : 1 -> 1) }) (theory p s { (def d : f -> f = (nothing)) })").unwrap_err();
    assert!(matches!(err, LoadError::DefinitionInterpret { ref arrow, .. } if arrow == "d"));
    let err = TheorySet::from_text("(theory s nat { (arr f : 1 -> 1) (arr g : 2 -> 1) }) (theory p s { (arr bad : f -> g) })").unwrap_err();
    assert!(matches!(err, LoadError::InvalidTypeMapDomain { .. }));
}

#[test]
fn merging_reports_the_first_failure() {
    let sets = vec![
        RawTheorySet::from_text("(theory t nat { (arr a : 1 -> 1) })"),
        RawTheorySet::from_text("(theory t nat { (arr a : 1 -> 1) })"),
        RawTheorySet::from_text("(theory"),
    ];
    assert!(matches!(merge_raw_sets(sets), Err(LoadError::MergeRaw(MergeRawError::DuplicateArrow { .. }))));
    let sets = vec![RawTheorySet::from_text("(theory"), RawTheorySet::from_text("(theory t nat {})")];
    assert!(matches!(merge_raw_sets(sets), Err(LoadError::ParseRaw(ParseRawError::Parse(_)))));
    let merged = merge_raw_sets(vec![]).unwrap();
    assert!(merged.theories.is_empty());
}

#[test]
fn definitions_are_looked_up_by_theory_and_name() {
    let file = TheorySet::from_text(
        "(theory s nat { (arr wff : 1 -> 1) }) (theory p s { (arr ax : wff -> wff) (def d : wff -> wff = (ax ax)) })",
    )
    .unwrap();
    let d = file.definition("p", "d").unwrap();
    assert_eq!(d.name, "d");
    assert_eq!(d.definition_text(), Some("(ax ax)".to_string()));
    assert!(matches!(file.definition("q", "d"), Err(ArrowLookupError::TheoryNotFound(_))));
    assert!(matches!(file.definition("nat", "d"), Err(ArrowLookupError::BuiltinTheory(_))));
    assert!(matches!(file.definition("p", "e"), Err(ArrowLookupError::ArrowNotFound { .. })));
    assert!(matches!(file.definition("p", "ax"), Err(ArrowLookupError::NoDefinition { .. })));
}

#[test]
fn a_theory_over_itself_is_not_loaded() {
    let err = TheorySet::from_text("(theory a a { (arr f : 1 -> 1) })").unwrap_err();
    assert!(matches!(err, LoadError::SyntaxCycle(ref t) if t.0 == "a"));
}

fn file_theory<'a>(file: &'a File, name: &str) -> Option<&'a Theory> {
    file.theories.iter().find(|(id, _)| id.0 == name).map(|(_, t)| t)
}

#[test]
fn file_loads_multiple_theories() {
    let file = File::from_text(
        r#"
            (theory fol.syntax nat {
              (arr wff : 1 -> 1)
              (arr -> : 2 -> 1)
              (arr -. : 1 -> 1)
            })

            (theory fol.proof fol.syntax {
              (arr wn : wff -> (-. wff))
              (arr wi : {wff wff} -> (-> wff))
              (def win : {wff wff} -> (-> -. wff) = (wi wn))
            })
            "#,
    )
    .unwrap();
    assert_eq!(file.theories.len(), 2);
    assert!(file_theory(&file, "nat").is_none());
    assert!(matches!(file_theory(&file, "fol.syntax"), Some(Theory::Theory { syntax, arrows }) if syntax == "nat" && arrows.len() == 3));
    assert!(matches!(file_theory(&file, "fol.proof"), Some(Theory::Theory { syntax, arrows }) if syntax == "fol.syntax" && arrows.len() == 3));
    assert!(matches!(file_theory(&file, "fol.proof"), Some(Theory::Theory { arrows, .. }) if arrows.iter().any(|a| a.definition.is_some())));
}

#[test]
fn file_rejects_dependency_cycles() {
    let err = File::from_text("(theory a b { (arr f : 1 -> 1) }) (theory b a { (arr g : f -> f) })").unwrap_err();
    assert!(matches!(err, LoadError::SyntaxCycle(_)));
}

#[test]
fn file_rejects_unknown_syntax_base() {
    let err = File::from_text("(theory a missing { (arr f : 1 -> 1) })").unwrap_err();
    assert!(matches!(err, LoadError::UnknownSyntaxCategory { .. }));
}

#[test]
fn file_rejects_top_level_definitions() {
    let err = File::from_text("(theory t nat { (arr a : 1 -> 1) }) (def t b : 1 -> 1 = a)").unwrap_err();
    assert!(matches!(err, LoadError::ParseRaw(ParseRawError::InvalidTheoryDeclaration(_))));
}

#[test]
fn top_level_definitions_are_not_resolved_with_their_theory() {
    let set = TheorySet::from_text("(theory t nat { (arr a : 1 -> 1) }) (def t b : 1 -> 1 = missing)").unwrap();
    assert!(matches!(get(&set, "t"), Some(Theory::Theory { arrows, .. }) if arrows.len() == 1 && arrows[0].name == "a"));
}

#[test]
fn expressions_are_written_as_hexpr_writes_them() {
    let parsed = parse_hexprs("(  {a   b} [x^c y . z] _ ^w [] [ . q] ( ))").unwrap();
    let mut text = String::new();
    write_expr(&parsed[0], &mut text);
    assert_eq!(text, "({a b} [x^c y . z] _ ^w [] [ . q] ())");
}

#[test]
fn interpretation_errors_carry_the_reason() {
    let err = TheorySet::from_text("(theory s nat { (arr wff : 1 -> 1) }) (theory p s { (arr bad : missing -> wff) })").unwrap_err();
    assert!(matches!(err, LoadError::SyntaxInterpret { ref source, .. } if source == "Couldn't parse op missing: No such operation missing"));
    let err = TheorySet::from_text("(theory s nat { (arr f : 1 -> 1) }) (theory p s { (def d : f -> f = (nothing)) })").unwrap_err();
    assert!(matches!(err, LoadError::DefinitionInterpret { ref source, .. } if source == "Couldn't parse op nothing: No such operation nothing"));
}

#[test]
fn parse_errors_carry_the_parser_message() {
    let err = TheorySet::from_text("(theory").unwrap_err();
    assert!(matches!(err, LoadError::ParseRaw(ParseRawError::Parse(ref m)) if !m.is_empty()));
}
