use extraction_gym::extract::indexed_egraph::IndexedEGraph;
use extraction_gym::extract::maxsat::cycles::johnson::find_cycles;
use extraction_gym::extract::maxsat::cycles::{to_hypergraph, HyperGraph};
use extraction_gym::extract::compact_egraph::compact_egraph;
use extraction_gym::extract::ExtractionResult;

/// Classes 0, 1, 2. E-node 0 (class 0) points to class 1, e-node 1 (class 1)
/// points to class 2, e-node 2 (class 2) is a leaf, and e-node 3 (class 1)
/// points back to class 0.
fn chain() -> IndexedEGraph {
    IndexedEGraph {
        node_class: vec![0, 1, 2, 1],
        node_children: vec![vec![1], vec![2], vec![], vec![0]],
        class_nodes: vec![vec![0], vec![1, 3], vec![2]],
        roots: vec![0],
    }
}

fn result(choices: &[(usize, usize)]) -> ExtractionResult {
    let mut r = ExtractionResult::new();
    for (c, n) in choices {
        r.choose_node(*c, *n);
    }
    r
}

#[test]
fn new_result_chooses_nothing() {
    let r = ExtractionResult::new();
    assert_eq!(r.get(0), None);
    assert_eq!(r.get(7), None);
}

#[test]
fn choosing_records_and_overwrites() {
    let mut r = ExtractionResult::new();
    r.choose_node(3, 9);
    assert_eq!(r.get(3), Some(9));
    assert_eq!(r.get(0), None);
    assert_eq!(r.get(4), None);
    r.choose_node(3, 5);
    assert_eq!(r.get(3), Some(5));
    r.choose_node(0, 1);
    assert_eq!(r.get(0), Some(1));
    assert_eq!(r.get(3), Some(5));
}

#[test]
fn acyclic_extraction_checks() {
    let g = chain();
    let r = result(&[(0, 0), (1, 1), (2, 2)]);
    assert!(r.check(&g));
    assert!(r.find_cycles(&g, &g.roots).is_empty());
}

#[test]
fn missing_root_choice_fails_the_check() {
    let g = chain();
    let r = result(&[(1, 1), (2, 2)]);
    assert!(!r.check(&g));
}

#[test]
fn missing_needed_choice_fails_the_check() {
    let g = chain();
    let r = result(&[(0, 0), (1, 1)]);
    assert!(!r.check(&g));
}

#[test]
fn node_of_another_class_fails_the_check() {
    let g = chain();
    let r = result(&[(0, 0), (1, 2), (2, 2)]);
    assert!(!r.check(&g));
}

#[test]
fn no_roots_fails_the_check() {
    let mut g = chain();
    g.roots = vec![];
    let r = result(&[(0, 0), (1, 1), (2, 2)]);
    assert!(!r.check(&g));
}

#[test]
fn cyclic_extraction_fails_the_check() {
    let g = chain();
    let r = result(&[(0, 0), (1, 3), (2, 2)]);
    assert!(!r.check(&g));
    assert_eq!(r.find_cycles(&g, &g.roots), vec![0]);
}

#[test]
fn unneeded_choices_do_not_matter() {
    // Rooted at class 2 alone, the looping choice for class 1 is not needed.
    let mut g2 = chain();
    g2.roots = vec![2];
    let r = result(&[(1, 3), (2, 2)]);
    assert!(r.check(&g2));
}

/// Every class of three points to the other two.
fn complete3() -> HyperGraph {
    let g = IndexedEGraph {
        node_class: vec![0, 0, 1, 1, 2, 2],
        node_children: vec![vec![2], vec![4], vec![0], vec![4], vec![0], vec![2]],
        class_nodes: vec![vec![0, 1], vec![2, 3], vec![4, 5]],
        roots: vec![0],
    };
    let mut h = HyperGraph::new();
    to_hypergraph(0, &g, &vec![1, 2, 3, 4, 5, 6], &mut h);
    h
}

fn canonical(c: &Vec<usize>) -> Vec<usize> {
    let start = (0..c.len()).min_by_key(|i| c[*i]).unwrap();
    (0..c.len()).map(|i| c[(start + i) % c.len()]).collect()
}

#[test]
fn every_elementary_cycle_is_found() {
    let h = complete3();
    let mut found: Vec<Vec<usize>> = find_cycles(&h).iter().map(canonical).collect();
    found.sort();
    assert_eq!(
        found,
        vec![vec![0, 1], vec![0, 1, 2], vec![0, 2], vec![0, 2, 1], vec![1, 2]]
    );
}

#[test]
fn well_formed_graphs_are_recognised() {
    assert!(chain().is_wf());
    let mut wrong_class = chain();
    wrong_class.class_nodes[1] = vec![1, 2];
    assert!(!wrong_class.is_wf());
    let mut dangling_child = chain();
    dangling_child.node_children[2] = vec![4];
    assert!(!dangling_child.is_wf());
    let mut missing_root = chain();
    missing_root.roots = vec![3];
    assert!(!missing_root.is_wf());
    let mut short_children = chain();
    short_children.node_children.pop();
    assert!(!short_children.is_wf());
    let mut bad_class = chain();
    bad_class.node_class[0] = 5;
    assert!(!bad_class.is_wf());
}

#[test]
fn compact_layout_of_an_egraph() {
    let g = IndexedEGraph {
        node_class: vec![0, 1, 2, 1],
        node_children: vec![vec![1, 3], vec![2], vec![], vec![0]],
        class_nodes: vec![vec![0], vec![1, 3], vec![2]],
        roots: vec![0],
    };
    let e = compact_egraph(&g, 14).unwrap();
    assert_eq!(e.node_ids, vec![0, 1, 3, 2]);
    assert_eq!(e.nodes_start, vec![0, 1, 3, 4]);
    assert_eq!(e.children, vec![1, 2, 0]);
    assert_eq!(e.children_start, vec![0, 1, 2, 3, 3]);
    assert_eq!(e.parents, vec![2, 0, 1]);
    assert_eq!(e.parents_start, vec![0, 1, 2, 3]);
    assert!(compact_egraph(&g, 13).is_none());
    assert!(compact_egraph(&g, 12).is_none());
}
