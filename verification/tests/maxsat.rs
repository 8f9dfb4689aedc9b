use extraction_gym::extract::indexed_egraph::IndexedEGraph;
use extraction_gym::extract::maxsat::cycles::johnson::find_cycles;
use extraction_gym::extract::maxsat::cycles::scc::scc;
use extraction_gym::extract::maxsat::cycles::{to_hypergraph, HyperGraph};
use extraction_gym::extract::maxsat::problem::{create_problem, fits_in_room, lists_nodes_once, solution_choices};
use extraction_gym::extract::maxsat::reply::{active_nodes, read_solver_output, SolverReply};
use extraction_gym::extract::maxsat::{tseytin_encoding, ProblemWriter};

/// Classes 0, 1, 2 in a ring through e-nodes 0, 1, 2; e-node 3 of class 1
/// points to its own class; class 3 (e-node 4) is a leaf pointed to by
/// e-node 2 and reachable from nothing else.
fn ring() -> IndexedEGraph {
    IndexedEGraph {
        node_class: vec![0, 1, 2, 1, 3],
        node_children: vec![vec![1], vec![2], vec![0, 4], vec![3], vec![]],
        class_nodes: vec![vec![0], vec![1, 3], vec![2], vec![4]],
        roots: vec![0],
    }
}

fn ring_graph() -> HyperGraph {
    let g = ring();
    let vars = vec![1, 2, 3, 4, 5];
    let mut h = HyperGraph::new();
    to_hypergraph(0, &g, &vars, &mut h);
    h
}

fn sorted(mut v: Vec<usize>) -> Vec<usize> {
    v.sort();
    v
}

#[test]
fn hypergraph_from_egraph_has_the_induced_edges() {
    let h = ring_graph();
    assert_eq!(h.size(), 4);
    assert!(h.contains(0) && h.contains(1) && h.contains(2) && h.contains(3));
    assert_eq!(sorted(h.neighbors(0)), vec![1]);
    assert_eq!(sorted(h.neighbors(1)), vec![1, 2]);
    assert_eq!(sorted(h.neighbors(2)), vec![0, 3]);
    assert_eq!(h.neighbors(3), Vec::<usize>::new());
    let edges = h.edges(1).unwrap();
    assert_eq!(edges.len(), 2);
    for (target, vars) in edges {
        if target == 1 {
            assert_eq!(vars, vec![4]);
        } else {
            assert_eq!(target, 2);
            assert_eq!(vars, vec![2]);
        }
    }
    assert!(h.edges(9).is_none());
    let mut nodes: Vec<usize> = h.nodes().into_iter().collect();
    nodes.sort();
    assert_eq!(nodes, vec![0, 1, 2, 3]);
}

#[test]
fn unreachable_classes_are_left_out() {
    let g = ring();
    let vars = vec![1, 2, 3, 4, 5];
    let mut h = HyperGraph::new();
    to_hypergraph(3, &g, &vars, &mut h);
    assert_eq!(h.size(), 0);
    assert!(!h.contains(0));
}

#[test]
fn numbering_round_trips() {
    let h = ring_graph();
    for c in 0..4 {
        let n = h.get_node_by_id(c);
        assert_eq!(h.get_id_by_node(n), c);
    }
}

#[test]
fn removing_a_class_drops_its_edges() {
    let mut h = ring_graph();
    h.remove_node(2);
    assert_eq!(h.size(), 3);
    assert!(h.contains(2));
    assert_eq!(sorted(h.neighbors(1)), vec![1]);
    assert_eq!(h.neighbors(0), vec![1]);
    let n = h.get_node_by_id(0);
    h.remove_node_raw(n);
    assert_eq!(h.size(), 2);
    assert_eq!(h.neighbors(1), vec![1]);
}

#[test]
fn subgraph_keeps_edges_within() {
    let h = ring_graph();
    let sub = h.subgraph(&[1, 2, 2]);
    assert_eq!(sub.size(), 2);
    assert_eq!(sorted(sub.neighbors(1)), vec![1, 2]);
    assert_eq!(sub.neighbors(2), Vec::<usize>::new());
    assert!(!sub.contains(0));
}

#[test]
fn strongly_connected_components_partition_the_classes() {
    let h = ring_graph();
    let mut comps: Vec<Vec<usize>> = scc(&h).into_iter().map(sorted).collect();
    comps.sort();
    assert_eq!(comps, vec![vec![0, 1, 2], vec![3]]);
}

#[test]
fn cycles_are_found() {
    let h = ring_graph();
    let cycles = find_cycles(&h);
    // The self-loop on class 1 is found by the pass over self-loops and again
    // by the search inside the component that holds class 1.
    assert_eq!(cycles.len(), 3);
    assert_eq!(cycles.iter().filter(|c| **c == vec![1]).count(), 2);
    let long: Vec<&Vec<usize>> = cycles.iter().filter(|c| c.len() == 3).collect();
    assert_eq!(long.len(), 1);
    let c = long[0];
    let start = c.iter().position(|x| *x == 0).unwrap();
    let rotated: Vec<usize> = (0..3).map(|i| c[(start + i) % 3]).collect();
    assert_eq!(rotated, vec![0, 1, 2]);
}

#[test]
fn cycles_sharing_a_class_are_each_found_once() {
    let g = IndexedEGraph {
        node_class: vec![0, 1, 2],
        node_children: vec![vec![1], vec![0, 2], vec![1]],
        class_nodes: vec![vec![0], vec![1], vec![2]],
        roots: vec![0],
    };
    let mut h = HyperGraph::new();
    to_hypergraph(0, &g, &vec![1, 2, 3], &mut h);
    let mut cycles: Vec<Vec<usize>> = find_cycles(&h).into_iter().map(sorted).collect();
    cycles.sort();
    assert_eq!(cycles, vec![vec![0, 1], vec![1, 2]]);
}

#[test]
fn acyclic_graph_has_no_cycles() {
    let g = IndexedEGraph {
        node_class: vec![0, 1, 2],
        node_children: vec![vec![1, 2], vec![2], vec![]],
        class_nodes: vec![vec![0], vec![1], vec![2]],
        roots: vec![0],
    };
    let mut h = HyperGraph::new();
    to_hypergraph(0, &g, &vec![1, 2, 3], &mut h);
    assert!(find_cycles(&h).is_empty());
    assert_eq!(scc(&h).len(), 3);
}

#[test]
fn problem_writer_formats_lines() {
    let mut w = ProblemWriter::new("out.wcnf".to_string());
    assert_eq!(w.new_var(), 1);
    assert_eq!(w.new_var(), 2);
    w.comment("Problem: test");
    w.hard_clause("1 2", 7);
    w.soft_clause("-1", 3);
    w.soft_clause("-2", -12);
    w.parameters(7);
    assert_eq!(
        w.contents(),
        "p wcnf 2 3 7\nc Problem: test\n7 1 2 0\n3 -1 0\n-12 -2 0\n"
    );
    assert_eq!(w.path, "out.wcnf");
}

#[test]
fn large_numbers_are_written_in_full() {
    let mut w = ProblemWriter::new(String::new());
    w.hard_clause("", i64::MIN);
    w.soft_clause("x", 1234567890123);
    w.parameters(0);
    assert_eq!(
        w.contents(),
        "p wcnf 0 2 0\n-9223372036854775808  0\n1234567890123 x 0\n"
    );
}

#[test]
fn tseytin_encoding_defines_one_variable_per_long_clause() {
    let mut w = ProblemWriter::new(String::new());
    for _ in 0..3 {
        w.new_var();
    }
    tseytin_encoding(vec![vec![1, 2], vec![3]], &mut w, 10);
    w.parameters(10);
    assert_eq!(
        w.contents(),
        "p wcnf 4 4 10\n10 -4 -1 0\n10 -4 -2 0\n10 1 2 4 0\n10 4 -3 0\n"
    );
}

#[test]
fn tseytin_encoding_of_no_clauses_is_an_empty_clause() {
    let mut w = ProblemWriter::new(String::new());
    tseytin_encoding(vec![], &mut w, 5);
    w.parameters(5);
    assert_eq!(w.contents(), "p wcnf 0 1 5\n5  0\n");
}

/// Class 0 holds e-node 0, which points to class 1; class 1 holds e-node 1,
/// a leaf, and e-node 2, which points back to class 0.
fn two_cycle() -> IndexedEGraph {
    IndexedEGraph {
        node_class: vec![0, 1, 1],
        node_children: vec![vec![1], vec![], vec![0]],
        class_nodes: vec![vec![0], vec![1, 2]],
        roots: vec![0],
    }
}

#[test]
fn problem_without_cycle_constraints() {
    let g = two_cycle();
    let mut w = ProblemWriter::new("p.wcnf".to_string());
    let vars = create_problem(&g, &mut w, "t", false, 7, &vec![1, 2, 3]);
    assert_eq!(vars, vec![1, 2, 3]);
    assert_eq!(
        w.contents(),
        "p wcnf 3 6 7\nc Problem: t\nc Hard clauses:\n7 1 0\n7 -1 2 3 0\n7 -3 1 0\n\
         c Soft clauses:\n1 -1 0\n2 -2 0\n3 -3 0\n"
    );
}

#[test]
fn problem_rules_out_the_cycle() {
    let g = two_cycle();
    let mut w = ProblemWriter::new("p.wcnf".to_string());
    let vars = create_problem(&g, &mut w, "t", true, 7, &vec![1, 2, 3]);
    assert_eq!(vars, vec![1, 2, 3]);
    let text = w.contents();
    let expected = |cycle: &str| {
        format!(
            "p wcnf 3 7 7\nc Problem: t\n{cycle}c Hard clauses:\n7 1 0\n7 -1 2 3 0\n7 -3 1 0\n\
             c Soft clauses:\n1 -1 0\n2 -2 0\n3 -3 0\n"
        )
    };
    assert!(text == expected("7 -1 -3 0\n") || text == expected("7 -3 -1 0\n"), "{text}");
}

#[test]
fn problem_rules_out_a_self_loop() {
    // Class 0 holds e-node 0, which points to its own class, and e-node 1.
    let g = IndexedEGraph {
        node_class: vec![0, 0],
        node_children: vec![vec![0], vec![]],
        class_nodes: vec![vec![0, 1]],
        roots: vec![0],
    };
    let mut w = ProblemWriter::new("p.wcnf".to_string());
    let vars = create_problem(&g, &mut w, "loop", true, 4, &vec![1, 2]);
    assert_eq!(vars, vec![1, 2]);
    // The loop's component has one class, so only the pass over self-loops
    // finds it.
    assert_eq!(
        w.contents(),
        "p wcnf 2 5 4\nc Problem: loop\n4 -1 0\nc Hard clauses:\n4 1 2 0\n4 -1 1 2 0\n\
         c Soft clauses:\n1 -1 0\n2 -2 0\n"
    );
}

#[test]
fn variables_continue_after_those_in_use() {
    let g = two_cycle();
    let mut w = ProblemWriter::new("p.wcnf".to_string());
    w.new_var();
    w.new_var();
    let vars = create_problem(&g, &mut w, "t", false, 7, &vec![1, 2, 3]);
    assert_eq!(vars, vec![3, 4, 5]);
}

#[test]
fn solution_choices_follow_the_first_active_nodes() {
    let g = two_cycle();
    let r = solution_choices(&g, &vec![true, true, false]).unwrap();
    assert_eq!(r.get(0), Some(0));
    assert_eq!(r.get(1), Some(1));
    // E-node 1 comes first in class 1, so it is taken over e-node 2.
    let r = solution_choices(&g, &vec![true, true, true]).unwrap();
    assert_eq!(r.get(1), Some(1));
}

#[test]
fn solution_with_an_active_cycle_is_refused() {
    let g = two_cycle();
    assert!(solution_choices(&g, &vec![true, false, true]).is_none());
}

#[test]
fn solution_missing_a_needed_class_is_refused() {
    let g = two_cycle();
    assert!(solution_choices(&g, &vec![true, false, false]).is_none());
    assert!(solution_choices(&g, &vec![false, true, true]).is_none());
}

#[test]
fn classes_the_roots_do_not_need_are_left_out() {
    // Class 2 (e-node 3) is reachable from nothing.
    let g = IndexedEGraph {
        node_class: vec![0, 1, 1, 2],
        node_children: vec![vec![1], vec![], vec![0], vec![]],
        class_nodes: vec![vec![0], vec![1, 2], vec![3]],
        roots: vec![0],
    };
    let r = solution_choices(&g, &vec![true, true, false, true]).unwrap();
    assert_eq!(r.get(0), Some(0));
    assert_eq!(r.get(1), Some(1));
    assert_eq!(r.get(2), None);
    let r = solution_choices(&g, &vec![true, true, false, false]).unwrap();
    assert_eq!(r.get(2), None);
}

fn output_lines(text: &str) -> Vec<Vec<char>> {
    text.lines().map(|l| l.chars().collect()).collect()
}

#[test]
fn solver_output_without_status_line() {
    let lines = output_lines("c comment\nv 101\n");
    assert!(matches!(read_solver_output(&lines), SolverReply::NoStatus));
}

#[test]
fn solver_output_unsatisfiable() {
    let lines = output_lines("c maxhs\ns UNSATISFIABLE\n");
    assert!(matches!(read_solver_output(&lines), SolverReply::Unsatisfiable));
}

#[test]
fn solver_output_without_assignment() {
    let lines = output_lines("o 12\ns OPTIMUM FOUND\n");
    assert!(matches!(read_solver_output(&lines), SolverReply::NoAssignment));
}

#[test]
fn solver_output_with_assignment_and_cost() {
    let lines = output_lines("c solving\no 17\ns OPTIMUM FOUND\nv 0110\nv 1111\n");
    match read_solver_output(&lines) {
        SolverReply::Solved { assignment, cost } => {
            assert_eq!(assignment, vec!['0', '1', '1', '0']);
            assert_eq!(cost, Some(vec!['1', '7']));
            let active = active_nodes(&assignment, &vec![1, 2, 3, 4, 5, 0]);
            assert_eq!(active, vec![false, true, true, false, false, false]);
        }
        _ => panic!("expected a solution"),
    }
}

#[test]
fn solver_output_without_cost_line() {
    let lines = output_lines("s OPTIMUM FOUND\r\nvx 11\nv 1\n");
    match read_solver_output(&lines) {
        SolverReply::Solved { assignment, cost } => {
            assert_eq!(assignment, vec!['1']);
            assert_eq!(cost, None);
        }
        _ => panic!("expected a solution"),
    }
}

#[test]
fn components_come_in_reverse_topological_order() {
    let h = ring_graph();
    let comps: Vec<Vec<usize>> = scc(&h).into_iter().map(sorted).collect();
    assert_eq!(comps, vec![vec![3], vec![0, 1, 2]]);
}

#[test]
fn subgraph_leaves_out_classes_without_edges_among_the_list() {
    let h = ring_graph();
    let sub = h.subgraph(&[0, 3]);
    assert_eq!(sub.size(), 0);
    assert!(!sub.contains(0));
    assert!(!sub.contains(3));
}

#[test]
fn nodes_listed_once_are_recognised() {
    assert!(lists_nodes_once(&ring()));
    let mut twice = ring();
    twice.class_nodes[1] = vec![1, 3, 1];
    assert!(!lists_nodes_once(&twice));
    let mut missing = ring();
    missing.class_nodes[1] = vec![1];
    assert!(!lists_nodes_once(&missing));
}

#[test]
fn small_problems_fit_in_room() {
    let writer = ProblemWriter::new("unused.wcnf".to_string());
    assert!(fits_in_room(&ring(), &writer));
}
