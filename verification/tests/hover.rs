use metacat::hover::{hover_token_at, wire_port_at};
use metacat::syntax::{token_at, CharClass, PortSide, Position};

#[test]
fn spider_outputs_feed_the_next_operation() {
    let text = "(theory t nat {\n  (def g : 1 -> 1 = ([.ph ph] f))\n})";
    let offset = text.find(".ph").unwrap() + 1;
    let token = token_at(text, offset, CharClass::Variable).unwrap();
    let (op, side, index) = wire_port_at(text, &token).unwrap();
    assert_eq!(op, "f");
    assert!(matches!(side, PortSide::Source));
    assert_eq!(index, 0);
    let offset = text.find("ph]").unwrap();
    let token = token_at(text, offset, CharClass::Variable).unwrap();
    let (_, _, index) = wire_port_at(text, &token).unwrap();
    assert_eq!(index, 1);
}

#[test]
fn spider_inputs_come_from_the_previous_operation() {
    let text = "(f [a b .] g)";
    let offset = text.find("b .").unwrap();
    let token = token_at(text, offset, CharClass::Variable).unwrap();
    let (op, side, index) = wire_port_at(text, &token).unwrap();
    assert_eq!(op, "f");
    assert!(matches!(side, PortSide::Target));
    assert_eq!(index, 1);
    let text = "([a .] g)";
    let token = token_at(text, 2, CharClass::Variable).unwrap();
    assert!(wire_port_at(text, &token).is_none());
}

#[test]
fn hovering_picks_a_wire_variable_inside_a_spider() {
    let text = "(f [a . b] g)";
    let (token, inside) = hover_token_at(text, Position { line: 0, character: 4 }).unwrap();
    assert_eq!((token.text.as_str(), inside), ("a", true));
    let (token, inside) = hover_token_at(text, Position { line: 0, character: 1 }).unwrap();
    assert_eq!((token.text.as_str(), inside), ("f", false));
    assert!(hover_token_at(text, Position { line: 3, character: 0 }).is_none());
}
