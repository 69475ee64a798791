use dd_analysis::bdd_prob::topological_sort;
use dd_analysis::common::{contains, Error};
use dd_analysis::levels::level_headers;
use dd_analysis::numeric::{accumulate, lookup, CountValue};
use dd_analysis::table::{Node, NodeHeader, NodeTable};

#[test]
fn new_table_holds_the_undetermined_terminal() {
    let dd: NodeTable<i32> = NodeTable::new();
    assert_eq!(dd.size(), (0, 1));
    assert!(matches!(dd.get_node(0), Some(Node::Undet)));
    assert!(dd.get_node(1).is_none());
    assert_eq!(dd.undet(), 0);
    assert_eq!(dd.validate(), Ok(()));
    let bd = NodeTable::new_boolean();
    assert_eq!(bd.size(), (0, 3));
    assert!(matches!(bd.get_node(bd.zero()), Some(Node::Terminal(false))));
    assert!(matches!(bd.get_node(bd.one()), Some(Node::Terminal(true))));
}

#[test]
fn nodes_are_shared() {
    let mut dd = NodeTable::new_boolean();
    let h = dd.create_header(0, "x", 2);
    let (zero, one) = (dd.zero(), dd.one());
    let a = dd.create_node(h, &[zero, one]);
    let n = dd.size().1;
    let b = dd.create_node(h, &[zero, one]);
    assert_eq!(a, b);
    assert_eq!(dd.size().1, n);
    let c = dd.create_node(h, &[one, zero]);
    assert_ne!(a, c);
    assert_eq!(dd.size().1, n + 1);
    // a decision that makes no difference is not stored
    assert_eq!(dd.create_node(h, &[one, one]), one);
    assert_eq!(dd.size().1, n + 1);
}

#[test]
fn terminals_are_shared() {
    let mut dd: NodeTable<i64> = NodeTable::new();
    let a = dd.terminal(5);
    let b = dd.terminal(6);
    assert_ne!(a, b);
    assert_eq!(dd.terminal(5), a);
    assert_eq!(dd.size().1, 3);
    assert!(matches!(dd.get_node(a), Some(Node::Terminal(5))));
}

#[test]
fn headers_and_levels() {
    let mut dd = NodeTable::new_boolean();
    let hx = dd.create_header(1, "x", 2);
    let hy = dd.create_header(0, "y", 2);
    let (zero, one) = (dd.zero(), dd.one());
    let y = dd.create_node(hy, &[zero, one]);
    let x = dd.create_node(hx, &[y, one]);
    assert_eq!(dd.level(x), Some(1));
    assert_eq!(dd.level(y), Some(0));
    assert_eq!(dd.level(one), None);
    assert_eq!(dd.level(99), None);
    assert_eq!(dd.label(x).map(|s| s.as_str()), Some("x"));
    assert_eq!(dd.label(zero), None);
    let h = dd.get_header(hx).unwrap();
    assert_eq!((h.level(), h.label().as_str(), h.edge_num()), (1, "x", 2));
    assert!(dd.get_header(7).is_none());
    assert_eq!(dd.find_level(0), Some(hy));
    assert_eq!(dd.find_level(1), Some(hx));
    assert_eq!(dd.find_level(2), None);
    assert_eq!(level_headers(&dd, Some(1)), Ok(vec![hy, hx]));
    assert_eq!(level_headers(&dd, None), Ok(vec![]));
    assert_eq!(level_headers(&dd, Some(2)), Err(Error::MissingHeader));
}

fn header(level: usize, label: &str, n: usize) -> NodeHeader {
    NodeHeader::new(level, label, n)
}

fn inner(h: usize, children: &[usize]) -> Node<bool> {
    Node::NonTerminal { header: h, children: children.to_vec() }
}

#[test]
fn validate_accepts_what_is_in_order() {
    let dd = NodeTable::from_tables(
        vec![header(0, "x", 2)],
        vec![Node::Undet, Node::Terminal(false), Node::Terminal(true), inner(0, &[1, 2])],
    );
    assert_eq!(dd.validate(), Ok(()));
    assert_eq!(dd.size(), (1, 4));
    // the node that came with the table is found again
    let mut dd = dd;
    assert_eq!(dd.create_node(0, &[1, 2]), 3);
    assert_eq!(dd.size(), (1, 4));
}

#[test]
fn validate_names_what_is_wrong() {
    let missing_header = NodeTable::from_tables(
        vec![header(0, "x", 2)],
        vec![Node::Undet, Node::Terminal(false), Node::Terminal(true), inner(3, &[1, 2])],
    );
    assert_eq!(missing_header.validate(), Err(Error::MissingHeader));

    let missing_node = NodeTable::from_tables(
        vec![header(0, "x", 2)],
        vec![Node::Undet, Node::Terminal(false), Node::Terminal(true), inner(0, &[1, 9])],
    );
    assert_eq!(missing_node.validate(), Err(Error::MissingNode));

    let loops = NodeTable::from_tables(
        vec![header(0, "x", 2)],
        vec![Node::Undet, Node::Terminal(false), Node::Terminal(true), inner(0, &[1, 3])],
    );
    assert_eq!(loops.validate(), Err(Error::CyclicDiagram));

    let rises = NodeTable::from_tables(
        vec![header(0, "x", 2), header(1, "y", 2)],
        vec![
            Node::Undet,
            Node::Terminal(false),
            Node::Terminal(true),
            inner(0, &[1, 4]),
            inner(1, &[1, 2]),
        ],
    );
    assert_eq!(rises.validate(), Err(Error::CyclicDiagram));

    let no_undet: NodeTable<bool> =
        NodeTable::from_tables(vec![], vec![Node::Terminal(false)]);
    assert_eq!(no_undet.validate(), Err(Error::InvalidDiagram));

    let empty: NodeTable<bool> = NodeTable::from_tables(vec![], vec![]);
    assert_eq!(empty.validate(), Err(Error::InvalidDiagram));

    let unary = NodeTable::<bool>::from_tables(vec![header(0, "x", 1)], vec![Node::Undet]);
    assert_eq!(unary.validate(), Err(Error::InvalidDiagram));

    let same_level = NodeTable::<bool>::from_tables(
        vec![header(0, "x", 2), header(0, "y", 2)],
        vec![Node::Undet],
    );
    assert_eq!(same_level.validate(), Err(Error::InvalidDiagram));

    let wrong_arity = NodeTable::from_tables(
        vec![header(0, "x", 3)],
        vec![Node::Undet, Node::Terminal(false), Node::Terminal(true), inner(0, &[1, 2])],
    );
    assert_eq!(wrong_arity.validate(), Err(Error::InvalidDiagram));
}

#[test]
fn target_sets_and_lists() {
    assert!(contains(&[1, 2, 3], &2));
    assert!(!contains(&[1, 2, 3], &4));
    assert!(!contains::<bool>(&[], &true));
    let pv = vec![("a".to_string(), 1), ("b".to_string(), 2), ("a".to_string(), 3)];
    assert_eq!(lookup(&pv, &"a".to_string()), Some(1));
    assert_eq!(lookup(&pv, &"b".to_string()), Some(2));
    assert_eq!(lookup(&pv, &"c".to_string()), None);
    let mut g: Vec<(String, i64)> = Vec::new();
    accumulate(&mut g, &"x".to_string(), 5);
    accumulate(&mut g, &"y".to_string(), 1);
    accumulate(&mut g, &"x".to_string(), 2);
    assert_eq!(g, vec![("x".to_string(), 7), ("y".to_string(), 1)]);
}

#[test]
fn count_values() {
    assert_eq!(<u64 as CountValue>::from_u32(7), 7u64);
    assert_eq!(3u64.plus(&4), 7);
    assert_eq!(3u64.times(&4), 12);
    assert_eq!(9u128.duplicate(), 9);
}

#[test]
fn sort_finds_a_cycle_that_can_be_reached() {
    // node 3 is its own high child; node 4 leads to node 5 and back
    let dd = NodeTable::from_tables(
        vec![header(0, "x", 2), header(1, "y", 2)],
        vec![
            Node::Undet,
            Node::Terminal(false),
            Node::Terminal(true),
            inner(0, &[1, 3]),
            inner(1, &[1, 5]),
            inner(0, &[4, 2]),
            inner(1, &[1, 2]),
        ],
    );
    assert_eq!(topological_sort(&dd, 3), Err(Error::CyclicDiagram));
    assert_eq!(topological_sort(&dd, 4), Err(Error::CyclicDiagram));
    assert_eq!(topological_sort(&dd, 5), Err(Error::CyclicDiagram));
    // from node 6 no cycle can be reached
    assert_eq!(topological_sort(&dd, 6), Ok(vec![6, 2, 1]));
    assert_eq!(topological_sort(&dd, 2), Ok(vec![2]));
    assert_eq!(topological_sort(&dd, 7), Err(Error::MissingNode));
}

#[test]
fn sort_takes_an_edge_that_rises_where_no_cycle_is() {
    // node 3, at level 0, leads up to node 4 at level 1: out of order, but no cycle
    let dd = NodeTable::from_tables(
        vec![header(0, "x", 2), header(1, "y", 2)],
        vec![
            Node::Undet,
            Node::Terminal(false),
            Node::Terminal(true),
            inner(0, &[1, 4]),
            inner(1, &[1, 2]),
        ],
    );
    assert_eq!(dd.validate(), Err(Error::CyclicDiagram));
    let order = topological_sort(&dd, 3).unwrap();
    assert_eq!(order, vec![3, 4, 2, 1]);
}
