use metacat::syntax::{
    composition_around, delimiter_stack_at, is_operation_char, is_variable_char, matching_close_offset, offset_at_position,
    position_at_offset, scan_composition_elements, token_at, CharClass, CompositionElement, FrobeniusSide, OpenDelimiter,
    Position,
};

#[test]
fn finds_the_token_around_an_offset() {
    let t = token_at("(wi wff)", 2, CharClass::Operation).unwrap();
    assert_eq!((t.text.as_str(), t.start, t.end), ("wi", 1, 3));
    assert!(token_at("(wi wff)", 3, CharClass::Operation).is_none());
    let t = token_at("ab", 2, CharClass::Operation).unwrap();
    assert_eq!((t.text.as_str(), t.start, t.end), ("ab", 0, 2));
    let t = token_at("x-y.z", 0, CharClass::Variable).unwrap();
    assert_eq!((t.text.as_str(), t.start, t.end), ("x-y", 0, 3));
}

#[test]
fn character_classes() {
    assert!(is_operation_char('>') && is_operation_char('.') && is_operation_char('7'));
    assert!(!is_operation_char('(') && !is_operation_char(' '));
    assert!(is_variable_char('_') && !is_variable_char('.'));
}

#[test]
fn delimiter_stack_tracks_open_brackets_and_skips_comments() {
    assert_eq!(
        delimiter_stack_at("(a [b {c", 8),
        vec![
            OpenDelimiter { char: '(', offset: 0 },
            OpenDelimiter { char: '[', offset: 3 },
            OpenDelimiter { char: '{', offset: 6 }
        ]
    );
    assert_eq!(delimiter_stack_at("(a [b] c", 8), vec![OpenDelimiter { char: '(', offset: 0 }]);
    assert_eq!(delimiter_stack_at("(# ( \n x", 8), vec![OpenDelimiter { char: '(', offset: 0 }]);
    assert_eq!(delimiter_stack_at("(a] b", 5), vec![OpenDelimiter { char: '(', offset: 0 }]);
}

#[test]
fn matching_close_skips_nested_and_commented_brackets() {
    assert_eq!(matching_close_offset("(a (b) # )\n c)", 0), Some(13));
    assert_eq!(matching_close_offset("(a", 0), None);
    assert_eq!(matching_close_offset("x", 0), None);
    assert_eq!(matching_close_offset("{[}]}", 0), Some(2));
}

#[test]
fn composition_elements_and_spider_variables() {
    let text = "(f [x . x] g)";
    let span = composition_around(text, 5).unwrap();
    assert_eq!((span.start, span.end), (0, 12));
    let elements = scan_composition_elements(text, span.start, span.end).unwrap();
    assert_eq!(elements.len(), 3);
    match &elements[0] {
        CompositionElement::Operation(op) => assert_eq!((op.text.as_str(), op.start), ("f", 1)),
        other => panic!("unexpected {:?}", other),
    }
    match &elements[1] {
        CompositionElement::Frobenius(spider) => {
            assert_eq!((spider.start, spider.end), (3, 9));
            let source = spider.variable_occurrence(4, "x").unwrap();
            assert_eq!((source.side, source.index), (FrobeniusSide::Source, 0));
            let target = spider.variable_occurrence(8, "x").unwrap();
            assert_eq!((target.side, target.index), (FrobeniusSide::Target, 0));
            assert!(spider.variable_occurrence(6, "x").is_none());
        }
        other => panic!("unexpected {:?}", other),
    }
    match &elements[2] {
        CompositionElement::Operation(op) => assert_eq!((op.text.as_str(), op.start), ("g", 11)),
        other => panic!("unexpected {:?}", other),
    }
    assert!(composition_around("[x . x]", 2).is_none());
}

#[test]
fn positions_count_utf16_columns() {
    let text = "ab\nc😀d";
    assert_eq!(position_at_offset(text, 0), Position { line: 0, character: 0 });
    assert_eq!(position_at_offset(text, 3), Position { line: 1, character: 0 });
    assert_eq!(position_at_offset(text, 8), Position { line: 1, character: 3 });
    assert_eq!(position_at_offset(text, 100), Position { line: 1, character: 4 });
    assert_eq!(offset_at_position(text, Position { line: 1, character: 3 }), Some(8));
    assert_eq!(offset_at_position(text, Position { line: 1, character: 2 }), None);
    assert_eq!(offset_at_position(text, Position { line: 1, character: 4 }), Some(9));
    assert_eq!(offset_at_position(text, Position { line: 5, character: 0 }), None);
}

#[test]
fn offsets_and_positions_round_trip() {
    let text = "(theory t nat {\n  (arr ∀ : 1 -> 1)\n})";
    for (offset, _) in text.char_indices() {
        let position = position_at_offset(text, offset);
        assert_eq!(offset_at_position(text, position), Some(offset));
    }
}

#[test]
fn open_delimiters_depend_only_on_the_text_before_the_offset() {
    let text = "(theory t nat { (arr f : [x . x] -> ( # {\n g";
    for offset in 0..=text.len() {
        if !text.is_char_boundary(offset) {
            continue;
        }
        let whole = delimiter_stack_at(text, offset);
        assert_eq!(whole, delimiter_stack_at(&text[..offset], offset));
        for pair in whole.windows(2) {
            assert!(pair[0].offset < pair[1].offset);
        }
        for d in &whole {
            assert!(d.offset < offset);
            assert!(matches!(d.char, '(' | '[' | '{'));
        }
    }
}
