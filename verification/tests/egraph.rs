use extraction_gym::egraph::{parse_simple_egraph, SimpleEGraph, SimpleEGraphError};

fn lines(text: &str) -> Vec<Vec<char>> {
    text.lines().map(|l| l.chars().collect()).collect()
}

fn chars(s: &str) -> Vec<char> {
    s.chars().collect()
}

fn parse(text: &str) -> Result<SimpleEGraph, SimpleEGraphError> {
    parse_simple_egraph(&lines(text))
}

#[test]
fn simple_egraph_classes_numbered_by_first_mention() {
    let g = parse("## root: 2\n0,1,x\n1,1,g,0\n2,1,f,1\n# a second term\n3,1,y\n2,7.5,h,3\n").ok().unwrap();
    assert_eq!(g.names, vec![chars("2"), chars("0"), chars("1"), chars("3")]);
    assert_eq!(g.roots, vec![0]);
    let ops: Vec<Vec<Vec<char>>> = g
        .classes
        .iter()
        .map(|ns| ns.iter().map(|n| n.op.clone()).collect())
        .collect();
    assert_eq!(ops, vec![vec![chars("f"), chars("h")], vec![chars("x")], vec![chars("g")], vec![chars("y")]]);
    assert_eq!(g.classes[0][0].children, vec![2]);
    assert_eq!(g.classes[0][1].children, vec![3]);
    assert_eq!(g.classes[0][1].cost, chars("7.5"));
    assert_eq!(g.classes[0][1].line, 7);
    assert_eq!(g.classes[2][0].children, vec![1]);
    assert!(g.classes[1][0].children.is_empty());
}

#[test]
fn simple_egraph_fields_padded_with_spaces() {
    let text = "## root: 2\n0,   1, x\n1,   1, g, 0\n2,   1, f, 1\n# this is a comment, starting the second \"term\"\n3,   1, y\n2, 7.5, h, 3\n";
    let g = parse(text).ok().unwrap();
    assert_eq!(g.names, vec![chars("2"), chars("0"), chars("1"), chars("3")]);
    assert_eq!(g.roots, vec![0]);
    let total: usize = g.classes.iter().map(|ns| ns.len()).sum();
    assert_eq!(total, 5);
    assert_eq!(g.classes[0][0].op, chars("f"));
    assert_eq!(g.classes[0][0].cost, chars("1"));
    assert_eq!(g.classes[0][0].children, vec![2]);
    assert_eq!(g.classes[0][1].op, chars("h"));
    assert_eq!(g.classes[0][1].cost, chars("7.5"));
    assert_eq!(g.classes[0][1].children, vec![3]);
    assert_eq!(g.classes[1][0].op, chars("x"));
    assert!(g.classes[1][0].children.is_empty());
    assert_eq!(g.classes[2][0].op, chars("g"));
    assert_eq!(g.classes[2][0].children, vec![1]);
    assert_eq!(g.classes[3][0].op, chars("y"));
}

#[test]
fn simple_egraph_roots_are_kept_once_and_lines_trimmed() {
    let g = parse("## roots: b, a ,b\n  a,1,x  \n## root: a\nb,2,y,a\n").ok().unwrap();
    assert_eq!(g.names, vec![chars("b"), chars("a")]);
    assert_eq!(g.roots, vec![0, 1]);
    assert_eq!(g.classes[1][0].op, chars("x"));
    assert_eq!(g.classes[0][0].children, vec![1]);
}

#[test]
fn simple_egraph_line_without_cost() {
    match parse("a,1,x\nb\n") {
        Err(SimpleEGraphError::MissingCost(line, costs)) => {
            assert_eq!(line, 2);
            assert_eq!(costs, vec![(1, chars("1"))]);
        }
        _ => panic!("expected a missing cost"),
    }
}

#[test]
fn simple_egraph_line_without_op() {
    match parse("a,3\n") {
        Err(SimpleEGraphError::MissingOp(line, costs)) => {
            assert_eq!(line, 1);
            assert_eq!(costs, vec![(1, chars("3"))]);
        }
        _ => panic!("expected a missing op"),
    }
}

#[test]
fn simple_egraph_class_without_nodes() {
    match parse("## roots: a, b\na,1,x,c\n") {
        Err(SimpleEGraphError::EmptyClass(name, costs)) => {
            assert_eq!(name, chars("b"));
            assert_eq!(costs, vec![(2, chars("1"))]);
        }
        _ => panic!("expected an empty class"),
    }
}
