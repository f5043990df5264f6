use hnapi::tree::{convert, SubTree, Tree};

fn count_nodes(t: &SubTree<u32>) -> usize {
    let mut n = 1;
    for c in &t.children {
        n += count_nodes(c);
    }
    n
}

#[test]
fn convert_empty_returns_empty() {
    assert_eq!(convert::<u32>(&vec![]), Tree { children: vec![] });
}

#[test]
fn convert_singleton_returns_something() {
    let input = vec![(0, 'a')];
    let expected = Tree::new(vec![SubTree::new('a', vec![])]);
    assert_eq!(convert(&input), expected);
}

#[test]
fn convert_something_returns_something() {
    let input = vec![
        (0, 'a'),
        (1, 'b'),
        (2, 'c'),
        (1, 'd'),
        (2, 'e'),
        (2, 'f'),
        (0, 'g'),
        (1, 'h'),
        (1, 'i'),
        (0, 'j'),
    ];
    let expected = Tree::new(vec![
        SubTree::new(
            'a',
            vec![
                SubTree::new('b', vec![SubTree::new('c', vec![])]),
                SubTree::new(
                    'd',
                    vec![SubTree::new('e', vec![]), SubTree::new('f', vec![])],
                ),
            ],
        ),
        SubTree::new(
            'g',
            vec![SubTree::new('h', vec![]), SubTree::new('i', vec![])],
        ),
        SubTree::new('j', vec![]),
    ]);
    assert_eq!(convert(&input), expected);
}

#[test]
fn convert_flat_siblings_keeps_order() {
    let input = vec![(0, 'a'), (0, 'b'), (0, 'c')];
    let expected = Tree::new(vec![
        SubTree::new('a', vec![]),
        SubTree::new('b', vec![]),
        SubTree::new('c', vec![]),
    ]);
    assert_eq!(convert(&input), expected);
}

#[test]
fn convert_keeps_sibling_order_under_each_node() {
    let input: Vec<(usize, u32)> = vec![(0, 10), (1, 11), (1, 12), (1, 13), (0, 20), (1, 21)];
    let tree = convert(&input);
    assert_eq!(tree.children.len(), 2);
    let first = &tree.children[0];
    assert_eq!(first.val, 10);
    let kid_vals: Vec<u32> = first.children.iter().map(|c| c.val).collect();
    assert_eq!(kid_vals, vec![11, 12, 13]);
    let second = &tree.children[1];
    assert_eq!(second.val, 20);
    assert_eq!(second.children.len(), 1);
    assert_eq!(second.children[0].val, 21);
}

#[test]
fn convert_gap_free_input_keeps_every_entry() {
    let input: Vec<(usize, u32)> = vec![
        (0, 1),
        (1, 2),
        (2, 3),
        (3, 4),
        (1, 5),
        (0, 6),
        (1, 7),
        (2, 8),
        (2, 9),
        (0, 10),
    ];
    let tree = convert(&input);
    let mut total = 0;
    for root in &tree.children {
        total += count_nodes(root);
    }
    assert_eq!(total, input.len());
}

#[test]
fn convert_stops_at_indent_gap() {
    // (2, 'b') jumps two levels below 'a'; collection stops there, so the
    // gapped entry and everything after it are dropped.
    let input = vec![(0, 'a'), (2, 'b'), (0, 'c')];
    let expected = Tree::new(vec![SubTree::new('a', vec![])]);
    assert_eq!(convert(&input), expected);
}

#[test]
fn convert_first_entry_indented_yields_empty_forest() {
    // nothing sits at indent 0, so collection stops before consuming anything
    let input = vec![(1, 'a'), (1, 'b')];
    assert_eq!(convert(&input), Tree { children: vec![] });
}
