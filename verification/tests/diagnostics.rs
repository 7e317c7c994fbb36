use metacat::diagnostics::{
    declaration_name_range, diagnostic_range, extract_after, extract_between, file_start_range, find_arrow_declaration,
    find_declaration, operation_token_matches, skip_non_whitespace, skip_whitespace, top_level_definition_name_range, trim,
    Range, Span,
};
use metacat::syntax::{position_at_offset, Position};

#[test]
fn diagnostic_range_points_to_unknown_operation_in_arrow_type_map() {
    let text = r#"(theory program type {
  (arr :.unpack : {[x t.]
    ({[.x] [.t]} :)
  } -> {[x t.]
    [.x]
    [.t]
    ({[.x] [.t]} :)
  })
})"#;
    let message =
        "Failed to interpret syntax map for theory program, arrow :.unpack: Couldn't parse op :: No such operation :";
    let range = diagnostic_range(text, message).unwrap();
    let expected = text.find("} :)").unwrap() + 2;
    assert_eq!(range.start, position_at_offset(text, expected));
    assert_eq!(range.end, position_at_offset(text, expected + 1));
}

#[test]
fn declarations_are_found_by_keyword_and_name() {
    let text = "(theory t nat {\n  (arr wff : 1 -> 1)\n  (def top : 1 -> 1 = wff)\n})";
    let arr = find_declaration(text, "arr", "wff").unwrap();
    assert_eq!(arr, Span { start: 18, end: 35 });
    assert_eq!(find_arrow_declaration(text, "top").unwrap().start, 39);
    assert!(find_declaration(text, "arr", "top").is_none());
    let r = declaration_name_range(text, "arr", "wff").unwrap();
    assert_eq!(r, Range { start: Position { line: 1, character: 7 }, end: Position { line: 1, character: 10 } });
}

#[test]
fn top_level_definitions_are_found_by_theory_and_name() {
    let text = "(theory t nat {})\n(def t boxed : 1 -> 1 = wff)";
    let r = top_level_definition_name_range(text, "t", "boxed").unwrap();
    assert_eq!(r, Range { start: Position { line: 1, character: 7 }, end: Position { line: 1, character: 12 } });
    assert!(top_level_definition_name_range(text, "u", "boxed").is_none());
}

#[test]
fn unknown_arrow_falls_back_to_the_declaration_start() {
    let text = "(theory t nat {\n  (arr f : 1 -> 1)\n})";
    let message = "arrow f: Couldn't parse op g: No such operation g";
    let r = diagnostic_range(text, message).unwrap();
    assert_eq!(r, Range { start: Position { line: 1, character: 2 }, end: Position { line: 1, character: 3 } });
    assert!(diagnostic_range(text, "something else").is_none());
    assert_eq!(file_start_range(), Range { start: Position { line: 0, character: 0 }, end: Position { line: 0, character: 1 } });
}

#[test]
fn text_helpers() {
    assert_eq!(extract_between("arrow f: Couldn't", "arrow ", ": Couldn't").unwrap(), "f");
    assert_eq!(extract_after("a: No such operation x: No such operation  y \n", "No such operation ").unwrap(), "y");
    assert_eq!(trim("  a b \t"), "a b");
    assert_eq!(skip_whitespace("  x", 0), 2);
    assert_eq!(skip_non_whitespace("abc d", 0, 5), 3);
    assert!(operation_token_matches("(f g)", 1, 5, "f"));
    assert!(!operation_token_matches("(fg)", 1, 4, "f"));
}
