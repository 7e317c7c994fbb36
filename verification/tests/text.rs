use metacat::expr::{parse_hexprs, Expr};
use metacat::order::str_lt;
use metacat::text::{char_at, char_len_utf16, char_len_utf8, chars_of, is_whitespace, text_eq, text_len, usize_to_decimal};

#[test]
fn decimal_rendering() {
    assert_eq!(usize_to_decimal(0), "0");
    assert_eq!(usize_to_decimal(1907), "1907");
    assert_eq!(usize_to_decimal(usize::MAX), usize::MAX.to_string());
}

#[test]
fn characters_by_byte_offset() {
    let s = "a😀b";
    assert_eq!(char_at(s, 0), Some('a'));
    assert_eq!(char_at(s, 1), Some('😀'));
    assert_eq!(char_at(s, 2), None);
    assert_eq!(char_at(s, 5), Some('b'));
    assert_eq!(char_at(s, 6), None);
    assert_eq!(char_len_utf8('😀'), 4);
    assert_eq!(char_len_utf16('😀'), 2);
    assert_eq!(char_len_utf16('∀'), 1);
    assert_eq!(text_len(s), 6);
    assert_eq!(chars_of(s), vec!['a', '😀', 'b']);
}

#[test]
fn comparisons() {
    assert!(text_eq("abc", "abc"));
    assert!(!text_eq("abc", "abd"));
    assert!(str_lt("a", "b"));
    assert!(str_lt("ab", "abc"));
    assert!(!str_lt("b", "a"));
    assert!(!str_lt("a", "a"));
    assert!(str_lt("Z", "a"));
    assert!(is_whitespace('\u{2003}'));
    assert!(!is_whitespace('x'));
}

#[test]
fn parsed_hexprs_keep_their_shape() {
    let hs = parse_hexprs("(f {a b} [x^t . x] _ )").unwrap();
    assert_eq!(hs.len(), 1);
    match &hs[0] {
        Expr::Composition(parts) => {
            assert!(matches!(&parts[0], Expr::Operation(o) if o == "f"));
            assert!(matches!(&parts[1], Expr::Tensor(v) if v.len() == 2));
            match &parts[2] {
                Expr::Frobenius { sources, targets } => {
                    assert_eq!(sources.len(), 1);
                    assert_eq!(sources[0].name, "x");
                    assert!(sources[0].label.is_some());
                    assert_eq!(targets.len(), 1);
                    assert!(targets[0].label.is_none());
                }
                other => panic!("unexpected {:?}", other),
            }
        }
        other => panic!("unexpected {:?}", other),
    }
    assert!(parse_hexprs("(f").is_err());
    assert_eq!(parse_hexprs("").unwrap().len(), 0);
}
