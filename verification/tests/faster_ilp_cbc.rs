use extraction_gym::extract::faster_ilp_cbc::{
    classes_with_single_parent, find_cycles_in_result, looping_members, reachable,
};

/// Class 0: e-nodes pointing to class 1 and to class 2; class 1: a leaf;
/// class 2: an e-node pointing back to class 0; class 3: an e-node
/// pointing to class 1.
fn classes() -> Vec<Vec<Vec<usize>>> {
    vec![vec![vec![1], vec![2]], vec![vec![]], vec![vec![0]], vec![vec![1]]]
}

#[test]
fn reachable_follows_children_from_the_roots() {
    assert_eq!(reachable(&classes(), &[0]), vec![true, true, true, false]);
    assert_eq!(reachable(&classes(), &[3]), vec![false, true, false, true]);
    assert_eq!(reachable(&classes(), &[]), vec![false, false, false, false]);
    assert_eq!(reachable(&classes(), &[1, 3]), vec![false, true, false, true]);
}

#[test]
fn single_parents_in_order_of_first_occurrence() {
    // Class 1 has two parents (0 and 3); classes 2 and 0 have one each.
    assert_eq!(classes_with_single_parent(&classes()), vec![(2, 0), (0, 2)]);
}

#[test]
fn a_parent_counts_once_however_many_of_its_nodes_point() {
    let children = vec![vec![vec![1], vec![1, 1]], vec![vec![]]];
    assert_eq!(classes_with_single_parent(&children), vec![(1, 0)]);
}

#[test]
fn missing_classes_can_have_single_parents() {
    // Class 5 is not one of the classes, but it is still a child.
    let children = vec![vec![vec![5]], vec![vec![5]], vec![vec![0]]];
    assert_eq!(classes_with_single_parent(&children), vec![(0, 2)]);
}

#[test]
fn looping_nodes_point_to_their_class_or_the_sole_root() {
    let children = vec![vec![vec![0, 1], vec![2]], vec![vec![2], vec![0]], vec![vec![1]]];
    assert_eq!(looping_members(&children, &[2]), vec![vec![0, 1], vec![0], vec![]]);
    // With two roots only the e-nodes pointing to their own class loop.
    assert_eq!(looping_members(&children, &[0, 2]), vec![vec![0], vec![], vec![]]);
}

#[test]
fn acyclic_solution_has_no_cycles() {
    let chosen = vec![Some(vec![1, 2]), Some(vec![2]), Some(vec![])];
    assert_eq!(find_cycles_in_result(&chosen, &[0]), Some(vec![]));
}

#[test]
fn cycle_is_the_stack_from_the_class_met_again() {
    let chosen = vec![Some(vec![1]), Some(vec![2]), Some(vec![1])];
    assert_eq!(find_cycles_in_result(&chosen, &[0]), Some(vec![vec![1, 2]]));
}

#[test]
fn self_loop_is_a_cycle_of_one_class() {
    let chosen = vec![Some(vec![0])];
    assert_eq!(find_cycles_in_result(&chosen, &[0]), Some(vec![vec![0]]));
}

#[test]
fn later_roots_are_searched_too() {
    let chosen = vec![Some(vec![]), Some(vec![2]), Some(vec![1])];
    assert_eq!(find_cycles_in_result(&chosen, &[0, 1]), Some(vec![vec![1, 2]]));
}

#[test]
fn class_without_a_choice_on_the_way_fails() {
    let chosen = vec![Some(vec![1]), None];
    assert_eq!(find_cycles_in_result(&chosen, &[0]), None);
    // A class without a choice that no search enters does not matter.
    let chosen = vec![Some(vec![]), None];
    assert_eq!(find_cycles_in_result(&chosen, &[0]), Some(vec![]));
}

use extraction_gym::extract::faster_ilp_cbc::rows::{chosen_members, ilp_rows};

fn sorted_pairs<T: Ord>(mut v: Vec<T>) -> Vec<T> {
    v.sort();
    v
}

#[test]
fn ilp_rows_without_intersection() {
    let rows = ilp_rows(&classes(), &[0], false).unwrap();
    assert!(rows.class_rows.is_empty());
    assert_eq!(sorted_pairs(rows.node_rows), vec![(0, 0, 1), (0, 1, 2), (2, 0, 0), (3, 0, 1)]);
}

#[test]
fn ilp_rows_with_intersection() {
    // Both members of class 0 need class 1; the class row replaces theirs.
    let children = vec![vec![vec![1, 2], vec![1]], vec![vec![]], vec![vec![1]]];
    let rows = ilp_rows(&children, &[0], true).unwrap();
    assert_eq!(sorted_pairs(rows.class_rows), vec![(0, 1), (2, 1)]);
    assert_eq!(rows.node_rows, vec![(0, 0, 2)]);
}

#[test]
fn ilp_rows_refused_when_a_root_has_no_members() {
    let children = vec![vec![], vec![vec![]]];
    assert!(ilp_rows(&children, &[1, 0], false).is_none());
}

#[test]
fn chosen_members_read_the_active_member() {
    let chosen = chosen_members(&vec![true, false, true], &vec![vec![false, true], vec![false], vec![true]]);
    assert_eq!(chosen, vec![Some(1), None, Some(0)]);
}
