use arena_tree::Tree;

fn numbers() -> Tree<u32> {
    Tree::<u32>::new(10)
        .add(1, 0)
        .add(2, 0)
        .add(5, 0)
        .add(2, 1)
        .add(3, 1)
        .add(3, 4)
        .add(4, 2)
        .add(8, 2)
}

#[test]
fn find_returns_the_first_match_in_creation_order() {
    let tree = numbers();
    assert_eq!(tree.find(&|&v| v == 10), Some(0));
    assert_eq!(tree.find(&|&v| v == 2), Some(2));
    assert_eq!(tree.find(&|&v| v == 3), Some(5));
    assert_eq!(tree.find(&|&v| v == 8), Some(8));
    assert_eq!(tree.find(&|&v| v > 2), Some(0));
    assert_eq!(tree.find(&|&v| v > 2 && v < 10), Some(3));
}

#[test]
fn find_without_a_match_is_none() {
    let tree = numbers();
    assert_eq!(tree.find(&|&v| v == 99), None);
    assert_eq!(tree.find(&|_| false), None);
}

#[test]
fn matches_children_returns_the_first_equal_child() {
    let tree = Tree::<u32>::new(0).add(7, 0).add(5, 0).add(7, 0).add(5, 0).add(5, 2);
    assert_eq!(tree.matches_children(0, 7), Some(1));
    assert_eq!(tree.matches_children(0, 5), Some(2));
    assert_eq!(tree.matches_children(2, 5), Some(5));

    let tree = numbers();
    assert_eq!(tree.matches_children(0, 2), Some(2));
    assert_eq!(tree.matches_children(1, 2), Some(4));
    assert_eq!(tree.matches_children(1, 3), Some(5));
    assert_eq!(tree.matches_children(4, 3), Some(6));
}

#[test]
fn matches_children_looks_at_children_only() {
    let tree = numbers();
    // 3 is held two and three levels down, but by no child of the root
    assert_eq!(tree.matches_children(0, 3), None);
    // the value of the parent itself does not count
    assert_eq!(tree.matches_children(0, 10), None);
    assert_eq!(tree.matches_children(1, 99), None);
}

#[test]
fn matches_children_of_a_leaf_is_none() {
    let tree = numbers();
    assert_eq!(tree.matches_children(3, 5), None);
    assert_eq!(tree.matches_children(6, 3), None);
}
