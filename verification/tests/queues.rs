use extraction_gym::extract::bottom_up_analysis::UniqueQueue;
use extraction_gym::extract::faster_ilp_cbc::Config;
use extraction_gym::extract::prio_queue::PrioQueue;

#[test]
fn prio_queue_pops_cheapest_first() {
    let mut q: PrioQueue<&str> = PrioQueue::new();
    q.insert("a", 5);
    q.insert("b", 2);
    q.insert("c", 7);
    q.insert("d", 2);
    let first = q.pop().unwrap();
    let second = q.pop().unwrap();
    assert_eq!(first.1, 2);
    assert_eq!(second.1, 2);
    assert_ne!(first.0, second.0);
    assert_eq!(q.pop(), Some(("a", 5)));
    assert_eq!(q.pop(), Some(("c", 7)));
    assert_eq!(q.pop(), None);
}

#[test]
fn unique_queue_keeps_first_insertion_order() {
    let mut q = UniqueQueue::default();
    assert!(q.is_empty());
    q.insert(3);
    q.insert(1);
    q.insert(3);
    assert!(!q.is_empty());
    assert_eq!(q.pop(), Some(3));
    q.insert(3);
    assert_eq!(q.pop(), Some(1));
    assert_eq!(q.pop(), Some(3));
    assert_eq!(q.pop(), None);
    assert!(q.is_empty());
}

#[test]
fn unique_queue_extend_skips_waiting_items() {
    let mut q = UniqueQueue::new();
    q.insert(2);
    q.extend(vec![1, 2, 5, 1, 7]);
    let mut out = Vec::new();
    while let Some(x) = q.pop() {
        out.push(x);
    }
    assert_eq!(out, vec![2, 1, 5, 7]);
}

#[test]
fn greedy_dag_queue_is_the_same_queue() {
    let mut q = extraction_gym::extract::greedy_dag_1::UniqueQueue::new();
    q.insert(4);
    assert_eq!(q.pop(), Some(4));
}

#[test]
fn config_defaults() {
    let c = Config::default();
    assert!(c.pull_up_costs);
    assert!(!c.remove_self_loops);
    assert!(!c.remove_high_cost_nodes);
    assert!(!c.remove_more_expensive_subsumed_nodes);
    assert!(!c.remove_more_expensive_nodes);
    assert!(!c.remove_unreachable_classes);
    assert!(!c.pull_up_single_parent);
    assert!(!c.take_intersection_of_children_in_class);
    assert!(c.move_min_cost_of_members_to_class);
    assert!(c.initialise_with_approx);
    assert!(c.initialise_with_previous_solution);
    assert!(c.prior_block_cycles);
}

#[test]
fn extend_appends_new_classes_in_order() {
    let mut q = UniqueQueue::new();
    q.insert(1);
    q.extend(vec![3, 1, 2, 3]);
    assert_eq!(q.pop(), Some(1));
    assert_eq!(q.pop(), Some(3));
    assert_eq!(q.pop(), Some(2));
    assert_eq!(q.pop(), None);
}
