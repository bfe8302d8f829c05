use arena_tree::Tree;

fn fixture() -> Tree<u32> {
    Tree::<u32>::new(10)
        .add(1, 0)
        .add(2, 0)
        .add(5, 0)
        .add(2, 1)
        .add(3, 1)
        .add(3, 4)
        .add(4, 2)
        .add(8, 2)
}

fn pairs() -> Tree<(u32, u32)> {
    Tree::<(u32, u32)>::new((0, 0))
        .add((1, 1), 0)
        .add((2, 2), 0)
        .add((5, 5), 0)
        .add((2, 2), 1)
        .add((3, 3), 1)
        .add((3, 8), 4)
        .add((4, 4), 2)
        .add((8, 8), 2)
}

#[test]
fn full_path_returns_its_leaf() {
    let tree = fixture();

    let leaf = tree.matches_branch(vec![10, 1, 2, 3]).unwrap();
    assert_eq!(*leaf.value(), 3);
    assert_eq!(leaf.depth_level(), 3);
    assert_eq!(leaf.parent_id(), Some(4));
    assert!(leaf.children_id().is_empty());

    let leaf = tree.matches_branch(vec![10, 2, 4]).unwrap();
    assert_eq!(*leaf.value(), 4);
    assert_eq!(leaf.depth_level(), 2);
    assert_eq!(leaf.parent_id(), Some(2));

    let leaf = tree.matches_branch(vec![10, 2, 8]).unwrap();
    assert_eq!(*leaf.value(), 8);
    assert_eq!(leaf.parent_id(), Some(2));

    let leaf = tree.matches_branch(vec![10, 5]).unwrap();
    assert_eq!(*leaf.value(), 5);
    assert_eq!(leaf.depth_level(), 1);
    assert_eq!(leaf.parent_id(), Some(0));

    let leaf = tree.matches_branch(vec![10, 1, 3]).unwrap();
    assert_eq!(*leaf.value(), 3);
    assert_eq!(leaf.depth_level(), 2);
    assert_eq!(leaf.parent_id(), Some(1));
}

#[test]
fn chain_built_by_add_is_found_again() {
    let tree = Tree::<u32>::new(0).add(1, 0).add(2, 1).add(3, 2);
    let leaf = tree.matches_branch(vec![0, 1, 2, 3]).unwrap();
    assert_eq!(*leaf.value(), 3);
    assert_eq!(leaf.depth_level(), 3);
    assert_eq!(leaf.parent_id(), Some(2));
}

#[test]
fn start_of_a_path_returns_the_inner_node() {
    let tree = fixture();

    let inner = tree.matches_branch(vec![10, 1, 2]).unwrap();
    assert_eq!(*inner.value(), 2);
    assert_eq!(inner.depth_level(), 2);
    assert_eq!(inner.parent_id(), Some(1));
    assert_eq!(inner.children_id(), &vec![6]);

    let inner = tree.matches_branch(vec![10, 1]).unwrap();
    assert_eq!(*inner.value(), 1);
    assert_eq!(inner.depth_level(), 1);
    assert_eq!(inner.parent_id(), Some(0));
    assert_eq!(inner.children_id(), &vec![4, 5]);

    let root = tree.matches_branch(vec![10]).unwrap();
    assert_eq!(*root.value(), 10);
    assert_eq!(root.depth_level(), 0);
    assert_eq!(root.parent_id(), None);
    assert_eq!(root.children_id(), &vec![1, 2, 3]);
}

#[test]
fn empty_branch_matches_nothing() {
    assert!(fixture().matches_branch(vec![]).is_none());
    assert!(Tree::<u32>::new(1).matches_branch(vec![]).is_none());
    assert!(Tree::<u32>::new_empty().matches_branch(vec![]).is_none());
}

#[test]
fn lone_root_matches_its_own_value() {
    let tree = Tree::<u32>::new(4);
    let root = tree.matches_branch(vec![4]).unwrap();
    assert_eq!(*root.value(), 4);
    assert_eq!(root.parent_id(), None);
    assert!(tree.matches_branch(vec![5]).is_none());
}

#[test]
fn branch_that_misses_the_root_matches_nothing() {
    let tree = fixture();
    assert!(tree.matches_branch(vec![7]).is_none());
    assert!(tree.matches_branch(vec![1, 2, 3]).is_none());
}

#[test]
fn value_held_only_deeper_down_is_not_matched() {
    let tree = fixture();
    // 3 is held below the node 1, by no child of the root
    assert!(tree.matches_branch(vec![10, 3]).is_none());
}

#[test]
fn unmatched_value_is_passed_over() {
    let tree = fixture();

    // 99 matches no child of the root; 1 then meets the same children
    let node = tree.matches_branch(vec![10, 99, 1, 2]).unwrap();
    assert_eq!(*node.value(), 2);
    assert_eq!(node.depth_level(), 2);
    assert_eq!(node.parent_id(), Some(1));

    // a value in front that misses the root is passed over too
    let node = tree.matches_branch(vec![99, 10]).unwrap();
    assert_eq!(*node.value(), 10);
    assert_eq!(node.parent_id(), None);

    let node = tree.matches_branch(vec![10, 1, 99, 99, 3]).unwrap();
    assert_eq!(*node.value(), 3);
    assert_eq!(node.parent_id(), Some(1));
}

#[test]
fn branch_without_unmatched_values_is_followed_value_by_value() {
    let tree = fixture();
    let node = tree.matches_branch(vec![10, 1, 2]).unwrap();
    assert_eq!(*node.value(), 2);
    assert_eq!(node.parent_id(), Some(1));
}

#[test]
fn branch_that_runs_out_before_an_end_is_none() {
    let tree = fixture();
    assert!(tree.matches_branch(vec![10, 7, 7, 7, 7]).is_none());
    assert!(tree.matches_branch(vec![10, 1, 7]).is_none());
    assert!(tree.matches_branch(vec![10, 1, 2, 4]).is_none());
}

#[test]
fn branch_running_past_a_leaf_returns_the_leaf() {
    let tree = fixture();
    let leaf = tree.matches_branch(vec![10, 5, 7, 7]).unwrap();
    assert_eq!(*leaf.value(), 5);
    assert_eq!(leaf.parent_id(), Some(0));

    let leaf = tree.matches_branch(vec![10, 1, 2, 3, 7]).unwrap();
    assert_eq!(*leaf.value(), 3);
    assert_eq!(leaf.depth_level(), 3);
}

#[test]
fn only_the_oldest_matching_sibling_is_followed() {
    // two children of the root hold 1; 3 lies below the younger one
    let tree = Tree::<u32>::new(10).add(1, 0).add(1, 0).add(2, 1).add(3, 2);

    let node = tree.matches_branch(vec![10, 1]).unwrap();
    assert_eq!(node.children_id(), &vec![3]);

    let node = tree.matches_branch(vec![10, 1, 2]).unwrap();
    assert_eq!(*node.value(), 2);
    assert_eq!(node.parent_id(), Some(1));

    assert!(tree.matches_branch(vec![10, 1, 3]).is_none());
}

#[test]
fn older_sibling_that_is_a_leaf_ends_the_match() {
    let tree = Tree::<u32>::new(10).add(1, 0).add(1, 0).add(3, 2);
    let node = tree.matches_branch(vec![10, 1, 3]).unwrap();
    assert_eq!(*node.value(), 1);
    assert_eq!(node.depth_level(), 1);
    assert!(node.children_id().is_empty());
}

#[test]
fn predicate_picks_the_deepest_pair() {
    let tree = pairs();
    let node = tree
        .matches_branch_predicated::<u32>(vec![0, 1, 2, 3], &|wanted, held| *wanted == held.0)
        .unwrap();
    assert_eq!(*node.value(), (3, 8));
    assert_eq!(node.parent_id(), Some(4));
    assert_eq!(node.depth_level(), 3);

    let node = tree
        .matches_branch_predicated::<u32>(vec![0, 1, 3], &|wanted, held| *wanted == held.0)
        .unwrap();
    assert_eq!(*node.value(), (3, 3));
    assert_eq!(node.parent_id(), Some(1));
}

#[test]
fn predicate_gets_the_branch_value_first() {
    let tree = pairs();
    // the second component tells (3, 8) from (3, 3)
    let node = tree
        .matches_branch_predicated::<u32>(vec![0, 1, 2, 8], &|wanted, held| *wanted == held.1)
        .unwrap();
    assert_eq!(*node.value(), (3, 8));

    assert!(tree
        .matches_branch_predicated::<u32>(vec![0, 1, 2, 3], &|wanted, held| *wanted == held.1)
        .is_none());

    // the two arguments are not interchangeable: the branch holds tenfold values
    let node = tree
        .matches_branch_predicated::<u32>(vec![0, 10, 20, 30], &|wanted, held| {
            *wanted == held.0 * 10
        })
        .unwrap();
    assert_eq!(*node.value(), (3, 8));
    assert_eq!(node.parent_id(), Some(4));
}

#[test]
fn predicate_may_compare_other_types() {
    let tree = Tree::<String>::new(String::from("a"))
        .add(String::from("bb"), 0)
        .add(String::from("ccc"), 0)
        .add(String::from("dddd"), 2);
    let node = tree
        .matches_branch_predicated::<usize>(vec![1, 3, 4], &|len, text| text.len() == *len)
        .unwrap();
    assert_eq!(node.value(), "dddd");
    assert_eq!(node.parent_id(), Some(2));
}

#[test]
fn equality_and_equality_predicate_agree() {
    let tree = fixture();
    let branches: Vec<Vec<u32>> = vec![
        vec![],
        vec![10],
        vec![10, 1, 2, 3],
        vec![10, 99, 1, 2],
        vec![10, 1, 7],
        vec![10, 2, 8],
        vec![7],
    ];
    for branch in branches {
        let by_eq = tree.matches_branch(branch.clone());
        let by_predicate = tree.matches_branch_predicated::<u32>(branch, &|a, b| a == b);
        match (by_eq, by_predicate) {
            (None, None) => {}
            (Some(a), Some(b)) => {
                assert_eq!(a.value(), b.value());
                assert_eq!(a.parent_id(), b.parent_id());
                assert_eq!(a.depth_level(), b.depth_level());
                assert_eq!(a.children_id(), b.children_id());
            }
            _ => panic!("the two matches differ"),
        }
    }
}

#[test]
fn returned_node_is_a_copy() {
    let tree = fixture();
    let node = tree.matches_branch(vec![10, 1]).unwrap();
    let tree = tree.add(6, 1);
    // the copy keeps what the node held when it was found
    assert_eq!(node.children_id(), &vec![4, 5]);
    let again = tree.matches_branch(vec![10, 1]).unwrap();
    assert_eq!(again.children_id(), &vec![4, 5, 9]);

    let twin = again.clone();
    assert_eq!(twin.value(), again.value());
    assert_eq!(twin.parent_id(), again.parent_id());
    assert_eq!(twin.depth_level(), again.depth_level());
    assert_eq!(twin.children_id(), again.children_id());
}
