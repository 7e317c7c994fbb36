use metacat::tree::Tree;

#[test]
fn parenthesizes_nested_infix_operands() {
    let tree = Tree::<(), &str>::Node(
        "*",
        0,
        vec![
            Tree::Node("+", 0, vec![Tree::Node("1", 0, vec![]), Tree::Node("1", 0, vec![])]),
            Tree::Node("2", 0, vec![]),
        ],
    );

    let coarity = |_op: &&str| -> Result<usize, ()> { Ok(1) };
    assert_eq!(tree.try_pretty(Some(&coarity)).unwrap(), "(1 + 1) * 2");
}
