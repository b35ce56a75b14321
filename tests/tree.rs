use terminal::{Kind, Node, Tree};

fn print_ident(tree: &Tree, node: usize, ident: usize) {
    let label = match tree.kind(node) {
        Kind::Word(word) => format!("Word {} cost {}", word, tree.cost(node)),
        Kind::Feedback(i) => format!("Intersect {} cost {}", i, tree.cost(node)),
        Kind::Root => format!("Root, cost {}", tree.cost(node)),
    };
    println!("{}{}", "\t".repeat(ident), label);
    for &child in tree.children(node) {
        print_ident(tree, child, ident + 1);
    }
}

#[test]
fn print() {
    let mut nodes: Vec<Node> = Vec::new();
    nodes.push(Node::new_word("hello".to_string()));
    nodes.push(Node::new_word("one".to_string()));
    let mut intersection = Node::new_intersection(0);
    intersection.append_child(0, nodes[0].cost);
    intersection.append_child(1, nodes[1].cost);
    nodes.push(intersection);
    let mut root = Node::new_root();
    root.append_child(2, nodes[2].cost);
    nodes.push(root);

    let tree = Tree::from_nodes(nodes, 3).unwrap();
    print_ident(&tree, tree.root_index(), 0);
    assert_eq!(tree.children(tree.root_index()), &vec![2]);
}

#[test]
fn append_child_costs() {
    let mut word = Node::new_word("abc".to_string());
    word.append_child(0, 0);
    assert_eq!(word.cost, 1);
    word.append_child(1, 3);
    assert_eq!(word.cost, 4);
    word.append_child(2, 1);
    assert_eq!(word.cost, 4);
    let mut feedback = Node::new_intersection(2);
    feedback.append_child(0, 2);
    feedback.append_child(1, 5);
    feedback.append_child(2, 1);
    assert_eq!(feedback.cost, 5);
    assert_eq!(feedback.children, vec![0, 1, 2]);
}

#[test]
fn from_nodes_rejects_malformed_arenas() {
    // a child that does not come before its parent
    let mut root = Node::new_root();
    root.append_child(0, 0);
    assert!(Tree::from_nodes(vec![root], 0).is_none());
    // a root out of range
    assert!(Tree::from_nodes(vec![Node::new_root()], 1).is_none());
    // a cost above the node's position
    let mut word = Node::new_word("x".to_string());
    word.cost = 3;
    assert!(Tree::from_nodes(vec![word], 0).is_none());
}

#[test]
fn hand_built_tree_can_be_walked() {
    let mut nodes: Vec<Node> = Vec::new();
    nodes.push(Node::new_word("hello".to_string()));
    let mut intersection = Node::new_intersection(1);
    intersection.append_child(0, nodes[0].cost);
    nodes.push(intersection);
    let mut guess = Node::new_word("world".to_string());
    guess.append_child(1, nodes[1].cost);
    nodes.push(guess);
    let mut root = Node::new_root();
    root.append_child(2, nodes[2].cost);
    nodes.push(root);
    let mut tree = Tree::from_nodes(nodes, 3).unwrap();
    assert_eq!(tree.answer(), vec![("world".to_string(), 1)]);
    let after = tree.next_answer(&("world".to_string(), 1)).unwrap();
    assert_eq!(after, vec![("hello".to_string(), 0)]);
    assert_eq!(tree.cursor_index(), 1);
}
