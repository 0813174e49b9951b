use dre::layout::{BORDERS, BOX_HEIGHT, LEAF_STRIDE};
use dre::tree_editor::{Node, PLAIN};
use dre::tree_layout::{anchor, assign, forest, height, walk, width, Celled};

fn node(label: &str) -> Node {
    Node::new(label.to_string(), PLAIN, PLAIN, false, vec![])
}

fn node_with_children(label: &str, children: Vec<Node>) -> Node {
    Node::new(label.to_string(), PLAIN, PLAIN, false, children)
}

#[test]
fn tree_width_is_interior_plus_borders() {
    assert_eq!(width(&node("hi")), 2 + BORDERS);
}

#[test]
fn tree_width_of_empty_label_box_is_one_plus_borders() {
    assert_eq!(width(&node("")), 1 + BORDERS);
}

#[test]
fn tree_height_is_always_box_height() {
    assert_eq!(height(&node("anything")), BOX_HEIGHT);
    assert_eq!(height(&node("")), BOX_HEIGHT);
}

#[test]
fn anchor_of_odd_children_is_the_middle_childs_row() {
    let children = vec![
        Celled { row: 0, ..leaf_at(0) },
        Celled { row: 2, ..leaf_at(0) },
        Celled { row: 4, ..leaf_at(0) },
    ];
    assert_eq!(anchor(&children), 2);
}

#[test]
fn anchor_of_even_children_is_one_past_the_row_before_the_middle() {
    let children = vec![
        Celled { row: 0, ..leaf_at(0) },
        Celled { row: 2, ..leaf_at(0) },
    ];
    // middle = 1, so we look at children[0].row + 1
    assert_eq!(anchor(&children), 1);
}

fn leaf_at(row: i64) -> Celled {
    Celled { box_: node(""), width: 0, column: 0, row, path: vec![], children: vec![] }
}

#[test]
fn assign_of_a_leaf_places_it_at_the_free_row_and_advances_by_leaf_stride() {
    let (cell, next_free) = assign(&node("hi"), 0, vec![0], 5);
    assert_eq!(cell.box_, node("hi"));
    assert_eq!(cell.width, width(&node("hi")));
    assert_eq!(cell.column, 0);
    assert_eq!(cell.row, 5);
    assert_eq!(cell.path, vec![0]);
    assert!(cell.children.is_empty());
    assert_eq!(next_free, 5 + LEAF_STRIDE);
}

#[test]
fn assign_of_a_parent_places_children_in_the_next_column_with_indexed_paths() {
    let tree = node_with_children("parent", vec![node("a"), node("b")]);
    let (cell, next_free) = assign(&tree, 0, vec![3], 0);

    assert_eq!(cell.column, 0);
    assert_eq!(cell.path, vec![3]);
    assert_eq!(cell.children.len(), 2);

    assert_eq!(cell.children[0].column, 1);
    assert_eq!(cell.children[0].path, vec![3, 0]);
    assert_eq!(cell.children[0].row, 0);

    assert_eq!(cell.children[1].column, 1);
    assert_eq!(cell.children[1].path, vec![3, 1]);
    assert_eq!(cell.children[1].row, LEAF_STRIDE);

    // two leaves consume 2 * LEAF_STRIDE rows of "free" space
    assert_eq!(next_free, 2 * LEAF_STRIDE);

    // parent's own row is anchored between its two children
    assert_eq!(cell.row, anchor(&cell.children));
}

#[test]
fn forest_threads_the_free_row_counter_across_top_level_trees() {
    let boxes = vec![node("a"), node("b")];
    let trees = forest(&boxes);

    assert_eq!(trees.len(), 2);
    assert_eq!(trees[0].path, vec![0]);
    assert_eq!(trees[0].row, 0);
    assert_eq!(trees[1].path, vec![1]);
    // second tree's row starts where the first tree's free counter left off
    assert_eq!(trees[1].row, LEAF_STRIDE);
}

#[test]
fn forest_threads_free_across_a_multi_child_tree_and_a_following_leaf() {
    let boxes = vec![node_with_children("parent", vec![node("a"), node("b")]), node("c")];
    let trees = forest(&boxes);

    assert_eq!(trees.len(), 2);
    // the parent tree consumed 2 leaf slots (its two children)
    assert_eq!(trees[1].row, 2 * LEAF_STRIDE);
}

#[test]
fn walk_flattens_a_forest_in_pre_order() {
    let boxes = vec![node_with_children("parent", vec![node("a"), node("b")])];
    let trees = forest(&boxes);
    let flat = walk(&trees);

    let paths: Vec<Vec<i64>> = flat.iter().map(|cell| cell.path.clone()).collect();
    assert_eq!(paths, vec![vec![0], vec![0, 0], vec![0, 1]]);
}

#[test]
fn walk_of_multiple_top_level_trees_visits_each_tree_before_its_next_sibling_tree() {
    let boxes = vec![node("a"), node_with_children("b", vec![node("c")])];
    let trees = forest(&boxes);
    let flat = walk(&trees);

    let paths: Vec<Vec<i64>> = flat.iter().map(|cell| cell.path.clone()).collect();
    assert_eq!(paths, vec![vec![0], vec![1], vec![1, 0]]);
}

#[test]
fn the_walk_of_a_placed_forest_has_one_entry_per_box() {
    let boxes = vec![
        node_with_children("a", vec![node("b"), node_with_children("c", vec![node("d")])]),
        node("e"),
    ];
    let flat = walk(&forest(&boxes));
    assert_eq!(flat.len(), 5);
    let rows: Vec<i64> = flat.iter().map(|cell| cell.row).collect();
    assert_eq!(rows, vec![1, 0, 2, 2, 4]);
}
