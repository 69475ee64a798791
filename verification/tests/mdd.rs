use dd_analysis::common::Error;
use dd_analysis::mdd_count::{mdd_count, zmdd_count, zmdd_count_rec};
use dd_analysis::mdd_minsol::{minsol, minsol_n, without_n};
use dd_analysis::mdd_path::{MddPath, ZMddPath};
use dd_analysis::mdd_prob::{bmeas, prob, prob_in};
use dd_analysis::mtmdd2::{MtMdd2Manager, Node};
use dd_analysis::table::NodeTable;
use std::collections::{HashMap, HashSet};

/// (x + y) * z over x, y, z in {0, 1, 2}, with x lowest and z highest.
fn create_mdd() -> (Node, MtMdd2Manager<i32>) {
    let mut mgr = MtMdd2Manager::<i32>::new();
    let hx = mgr.mtmdd.create_header(0, "x", 3);
    let hy = mgr.mtmdd.create_header(1, "y", 3);
    let hz = mgr.mtmdd.create_header(2, "z", 3);
    let dd = &mut mgr.mtmdd;
    let mut line = |dd: &mut NodeTable<i32>, step: i32, from: i32| {
        let a = dd.terminal(from);
        let b = dd.terminal(from + step);
        let c = dd.terminal(from + 2 * step);
        dd.create_node(hx, &[a, b, c])
    };
    let s0 = line(dd, 1, 0);
    let s1 = line(dd, 1, 1);
    let s2 = line(dd, 1, 2);
    let once = dd.create_node(hy, &[s0, s1, s2]);
    let d0 = line(dd, 2, 0);
    let d1 = line(dd, 2, 2);
    let d2 = line(dd, 2, 4);
    let twice = dd.create_node(hy, &[d0, d1, d2]);
    let zero = dd.terminal(0);
    let f = dd.create_node(hz, &[zero, once, twice]);
    (Node::Value(f), mgr)
}

/// The Boolean diagram of (x + y) * z == 1.
fn create_mdd_eq1() -> (Node, MtMdd2Manager<i32>) {
    let mut mgr = MtMdd2Manager::<i32>::new();
    let hx = mgr.mdd.create_header(0, "x", 3);
    let hy = mgr.mdd.create_header(1, "y", 3);
    let hz = mgr.mdd.create_header(2, "z", 3);
    let (zero, one) = (mgr.mdd.zero(), mgr.mdd.one());
    let x1 = mgr.mdd.create_node(hx, &[zero, one, zero]);
    let x0 = mgr.mdd.create_node(hx, &[one, zero, zero]);
    let y = mgr.mdd.create_node(hy, &[x1, x0, zero]);
    let f = mgr.mdd.create_node(hz, &[zero, y, zero]);
    (Node::Bool(f), mgr)
}

/// min(x, y) over x, y in {0, 1, 2}, with x above y.
fn min_xy() -> (Node, MtMdd2Manager<i32>) {
    let mut mgr = MtMdd2Manager::<i32>::new();
    let hy = mgr.mtmdd.create_header(0, "y", 3);
    let hx = mgr.mtmdd.create_header(1, "x", 3);
    let dd = &mut mgr.mtmdd;
    let t0 = dd.terminal(0);
    let t1 = dd.terminal(1);
    let t2 = dd.terminal(2);
    let upto1 = dd.create_node(hy, &[t0, t1, t1]);
    let upto2 = dd.create_node(hy, &[t0, t1, t2]);
    let f = dd.create_node(hx, &[t0, upto1, upto2]);
    (Node::Value(f), mgr)
}

fn all_paths(mgr: &MtMdd2Manager<i32>, node: &Node, ss: &[i32]) -> Vec<Vec<(String, usize)>> {
    let mut it = MddPath::new(mgr, node, ss).unwrap();
    let mut out = Vec::new();
    while let Some(p) = it.next(mgr) {
        out.push(p);
    }
    out
}

fn all_zpaths(mgr: &MtMdd2Manager<i32>, node: &Node, ss: &[i32]) -> Vec<Vec<(String, usize)>> {
    let mut it = ZMddPath::new(mgr, node, ss).unwrap();
    let mut out = Vec::new();
    while let Some(p) = it.next(mgr) {
        out.push(p);
    }
    out
}

fn entry(label: &str, i: usize) -> (String, usize) {
    (label.to_string(), i)
}

#[test]
fn mdd_count_test_zmdd_count() {
    let (node, mgr) = create_mdd();
    let ss = vec![0];
    let result: u64 = zmdd_count(&mgr, &node, &ss).unwrap();
    println!("{}", result);
    assert!(result == 3);
}

#[test]
fn mdd_count_test_mdd_count() {
    let (node, mgr) = create_mdd();
    let ss = vec![0];
    let result: u64 = mdd_count(&mgr, &node, &ss).unwrap();
    println!("{}", result);
    assert!(result == 11);
}

#[test]
fn test_minsol() {
    let (node, mut mgr) = create_mdd();
    let before = mgr.size();
    let result = minsol(&mut mgr, &node).unwrap();
    assert!(matches!(result, Node::Value(_)));
    assert_eq!(mgr.mtmdd.validate(), Ok(()));
    assert!(mgr.size().3 >= before.3);
    // the diagram it started from is still there
    let again: u64 = mdd_count(&mgr, &node, &[0]).unwrap();
    assert_eq!(again, 11);
}

#[test]
fn mdd_path_test_zmdd_count() {
    let (node, mgr) = create_mdd();
    let ss = vec![0];
    let paths = all_zpaths(&mgr, &node, &ss);
    for p in &paths {
        println!("{:?}", p);
    }
    assert_eq!(
        paths,
        vec![
            vec![entry("z", 0)],
            vec![entry("z", 1), entry("y", 0), entry("x", 0)],
            vec![entry("z", 2), entry("y", 0), entry("x", 0)],
        ]
    );
    assert_eq!(ZMddPath::new(&mgr, &node, &ss).unwrap().len(&mgr), 3);
}

#[test]
fn test_zmdd_count2() {
    let (node, mgr) = create_mdd_eq1();
    let ss = vec![0];
    let paths = all_zpaths(&mgr, &node, &ss);
    for p in &paths {
        println!("{:?}", p);
    }
    assert_eq!(paths.len(), 7);
    assert_eq!(ZMddPath::new(&mgr, &node, &ss).unwrap().len(&mgr), 7);
    let n: u64 = zmdd_count(&mgr, &node, &ss).unwrap();
    assert_eq!(n, 7);
}

#[test]
fn mdd_path_test_mdd_count() {
    let (node, mgr) = create_mdd();
    let ss = vec![0];
    let paths = all_paths(&mgr, &node, &ss);
    for p in &paths {
        println!("{:?}", p);
    }
    assert_eq!(paths.len(), 11);
    assert_eq!(paths[0], vec![entry("z", 0), entry("y", 0), entry("x", 0)]);
    assert_eq!(paths[10], vec![entry("z", 2), entry("y", 0), entry("x", 0)]);
    assert_eq!(MddPath::new(&mgr, &node, &ss).unwrap().len(&mgr), 11);
}

#[test]
fn test_mdd_count2() {
    let (node, mgr) = create_mdd_eq1();
    let ss = vec![0];
    let paths = all_paths(&mgr, &node, &ss);
    assert_eq!(paths.len(), 25);
    let unique: HashSet<&Vec<(String, usize)>> = paths.iter().collect();
    assert_eq!(unique.len(), 25);
    assert_eq!(MddPath::new(&mgr, &node, &ss).unwrap().len(&mgr), 25);
    let n: u64 = mdd_count(&mgr, &node, &ss).unwrap();
    assert_eq!(n, 25);
    // the two assignments with (x + y) * z == 1
    let hits = all_paths(&mgr, &node, &[1]);
    assert_eq!(
        hits,
        vec![
            vec![entry("z", 1), entry("y", 0), entry("x", 1)],
            vec![entry("z", 1), entry("y", 1), entry("x", 0)],
        ]
    );
}

#[test]
fn count_of_min() {
    let (node, mgr) = min_xy();
    let zero: u64 = mdd_count(&mgr, &node, &[0]).unwrap();
    let one: u64 = mdd_count(&mgr, &node, &[1]).unwrap();
    let two: u64 = mdd_count(&mgr, &node, &[2]).unwrap();
    let all: u64 = mdd_count(&mgr, &node, &[0, 1, 2]).unwrap();
    let none: u64 = mdd_count(&mgr, &node, &[]).unwrap();
    assert_eq!((zero, one, two, all, none), (5, 3, 1, 9, 0));
    assert!(all_paths(&mgr, &node, &[]).is_empty());
    assert!(all_zpaths(&mgr, &node, &[]).is_empty());
}

#[test]
fn count_of_a_terminal() {
    let mut mgr = MtMdd2Manager::<i32>::new();
    let t = Node::Value(mgr.mtmdd.terminal(7));
    let hit: u64 = mdd_count(&mgr, &t, &[7]).unwrap();
    let miss: u64 = mdd_count(&mgr, &t, &[0]).unwrap();
    assert_eq!((hit, miss), (1, 0));
    let one = mgr.one();
    let zero = mgr.zero();
    let a: u64 = mdd_count(&mgr, &one, &[1]).unwrap();
    let b: u64 = mdd_count(&mgr, &one, &[0]).unwrap();
    let c: u64 = mdd_count(&mgr, &zero, &[0]).unwrap();
    assert_eq!((a, b, c), (1, 0, 1));
}

#[test]
fn paths_agree_with_counts() {
    for (node, mgr) in [create_mdd(), create_mdd_eq1(), min_xy()] {
        for ss in [vec![0], vec![1], vec![2], vec![0, 1], vec![]] {
            let n: u64 = mdd_count(&mgr, &node, &ss).unwrap();
            let paths = all_paths(&mgr, &node, &ss);
            assert_eq!(paths.len() as u64, n);
            let unique: HashSet<&Vec<(String, usize)>> = paths.iter().collect();
            assert_eq!(unique.len(), paths.len());
            let z: u64 = zmdd_count(&mgr, &node, &ss).unwrap();
            assert_eq!(all_zpaths(&mgr, &node, &ss).len() as u64, z);
        }
    }
}

#[test]
fn prob_of_min() {
    let (node, mgr) = min_xy();
    let third = 1.0f64 / 3.0;
    let pv = vec![
        ("x".to_string(), vec![third, third, third]),
        ("y".to_string(), vec![third, third, third]),
    ];
    let at_zero = prob(&mgr, &node, &pv, &[0]).unwrap();
    let at_one = prob(&mgr, &node, &pv, &[1]).unwrap();
    let at_two = prob(&mgr, &node, &pv, &[2]).unwrap();
    assert!((at_zero - 5.0 / 9.0).abs() < 1e-12);
    assert!((at_one - 3.0 / 9.0).abs() < 1e-12);
    assert!((at_two - 1.0 / 9.0).abs() < 1e-12);
    assert!((0.0..=1.0).contains(&at_zero));
}

#[test]
fn prob_adds_up_value_by_value() {
    let (node, mgr) = min_xy();
    // weights 1, 2, 3 for x and 4, 5, 6 for y, on integers
    let pv = vec![("x".to_string(), vec![1i64, 2, 3]), ("y".to_string(), vec![4i64, 5, 6])];
    // min = 0: x = 0 gives 1 * 1; x = 1 gives 2 * 4; x = 2 gives 3 * 4
    assert_eq!(prob(&mgr, &node, &pv, &[0]), Ok(1 + 8 + 12));
    // min = 2: x = 2 and y = 2
    assert_eq!(prob(&mgr, &node, &pv, &[2]), Ok(3 * 6));
}

#[test]
fn prob_takes_what_is_missing_for_zero() {
    let (node, mgr) = min_xy();
    // no row for y, and the row of x is short
    let pv = vec![("x".to_string(), vec![0.5f64, 0.5])];
    assert_eq!(prob(&mgr, &node, &pv, &[0]), Ok(0.5));
    assert_eq!(prob(&mgr, &node, &pv, &[1]), Ok(0.0));
}

#[test]
fn prob_of_boolean_diagram() {
    let (node, mgr) = create_mdd_eq1();
    let third = 1.0f64 / 3.0;
    let pv = vec![
        ("x".to_string(), vec![third, third, third]),
        ("y".to_string(), vec![third, third, third]),
        ("z".to_string(), vec![third, third, third]),
    ];
    let p = prob(&mgr, &node, &pv, &[1]).unwrap();
    assert!((p - 2.0 / 27.0).abs() < 1e-12);
}

#[test]
fn prob_refuses_undetermined_and_unknown_nodes() {
    let mut mgr = MtMdd2Manager::<i32>::new();
    let h = mgr.mtmdd.create_header(0, "x", 2);
    let t = mgr.mtmdd.terminal(1);
    let undet = mgr.mtmdd.undet();
    let f = mgr.mtmdd.create_node(h, &[t, undet]);
    let pv = vec![("x".to_string(), vec![0.5f64, 0.5])];
    assert_eq!(prob(&mgr, &Node::Value(f), &pv, &[1]), Err(Error::InvalidDiagram));
    assert_eq!(prob(&mgr, &Node::Value(999), &pv, &[1]), Err(Error::MissingNode));
    assert_eq!(prob(&mgr, &Node::Bool(999), &pv, &[1]), Err(Error::MissingNode));
    let n: Result<u64, Error> = mdd_count(&mgr, &Node::Value(999), &[1]);
    assert_eq!(n, Err(Error::MissingNode));
    let z: Result<u64, Error> = zmdd_count(&mgr, &Node::Bool(999), &[1]);
    assert_eq!(z, Err(Error::MissingNode));
    assert_eq!(minsol(&mut mgr, &Node::Value(999)), Err(Error::MissingNode));
    assert!(matches!(MddPath::new(&mgr, &Node::Value(999), &[1]), Err(Error::MissingNode)));
    assert!(matches!(ZMddPath::new(&mgr, &Node::Bool(999), &[1]), Err(Error::MissingNode)));
}

#[test]
fn count_needs_a_header_for_each_level() {
    let mut mgr = MtMdd2Manager::<i32>::new();
    let h = mgr.mtmdd.create_header(1, "x", 3);
    let a = mgr.mtmdd.terminal(0);
    let b = mgr.mtmdd.terminal(1);
    let f = Node::Value(mgr.mtmdd.create_node(h, &[a, b, b]));
    let n: Result<u64, Error> = mdd_count(&mgr, &f, &[1]);
    assert_eq!(n, Err(Error::MissingHeader));
    assert!(matches!(MddPath::new(&mgr, &f, &[1]), Err(Error::MissingHeader)));
    // paths need none
    let z: u64 = zmdd_count(&mgr, &f, &[1]).unwrap();
    assert_eq!(z, 2);
}

#[test]
fn minsol_of_boolean_threshold() {
    // x >= 1 over x in {0, 1, 2}: only x = 1 is minimal
    let mut mgr = MtMdd2Manager::<i32>::new();
    let h = mgr.mdd.create_header(0, "x", 3);
    let (zero, one) = (mgr.mdd.zero(), mgr.mdd.one());
    let f = mgr.mdd.create_node(h, &[zero, one, one]);
    let g = minsol(&mut mgr, &Node::Bool(f)).unwrap();
    let undet = mgr.mdd.undet();
    let expected = mgr.mdd.create_node(h, &[undet, one, undet]);
    assert_eq!(g, Node::Bool(expected));
    assert_eq!(all_zpaths(&mgr, &g, &[1]), vec![vec![entry("x", 1)]]);
}

#[test]
fn minsol_of_value_diagram() {
    // min(x, 1) over x in {0, 1, 2}
    let mut dd: NodeTable<i32> = NodeTable::new();
    let h = dd.create_header(0, "x", 3);
    let t0 = dd.terminal(0);
    let t1 = dd.terminal(1);
    let f = dd.create_node(h, &[t0, t1, t1]);
    let mut cache1 = HashMap::new();
    let mut cache2 = HashMap::new();
    let g = minsol_n(&mut dd, f, &mut cache1, &mut cache2);
    let undet = dd.undet();
    let expected = dd.create_node(h, &[t0, t1, undet]);
    assert_eq!(g, expected);
    // a terminal stays, the undetermined terminal stays
    assert_eq!(minsol_n(&mut dd, t1, &mut cache1, &mut cache2), t1);
    assert_eq!(minsol_n(&mut dd, undet, &mut cache1, &mut cache2), undet);
    // asking again gives the same node
    assert_eq!(minsol_n(&mut dd, f, &mut cache1, &mut cache2), g);
}

#[test]
fn without_n_follows_its_rules() {
    let mut dd: NodeTable<i32> = NodeTable::new();
    let h = dd.create_header(0, "x", 2);
    let t0 = dd.terminal(0);
    let t1 = dd.terminal(1);
    let undet = dd.undet();
    let f = dd.create_node(h, &[t0, t1]);
    let mut cache = HashMap::new();
    assert_eq!(without_n(&mut dd, undet, f, &mut cache), f);
    assert_eq!(without_n(&mut dd, f, undet, &mut cache), undet);
    assert_eq!(without_n(&mut dd, t0, t0, &mut cache), undet);
    assert_eq!(without_n(&mut dd, t0, t1, &mut cache), t1);
    // a node beside itself: child beside child, nothing is left
    assert_eq!(without_n(&mut dd, f, f, &mut cache), undet);
    // the terminal 0 beside the node: only the branch that differs stays
    let r = without_n(&mut dd, t0, f, &mut cache);
    let expected = dd.create_node(h, &[undet, t1]);
    assert_eq!(r, expected);

    let mut bd = NodeTable::new_boolean();
    let hb = bd.create_header(0, "x", 2);
    let (zero, one) = (bd.zero(), bd.one());
    let g = bd.create_node(hb, &[zero, one]);
    let mut cache = HashMap::new();
    assert_eq!(without_n(&mut bd, zero, one, &mut cache), one);
    assert_eq!(without_n(&mut bd, zero, g, &mut cache), g);
    assert_eq!(without_n(&mut bd, g, zero, &mut cache), 0);
    assert_eq!(without_n(&mut bd, one, g, &mut cache), 0);
    assert_eq!(without_n(&mut bd, one, one, &mut cache), 0);
}

fn partial(g: &[(String, usize, f64)], label: &str, i: usize) -> f64 {
    g.iter().find(|e| e.0 == label && e.1 == i).map(|e| e.2).unwrap()
}

#[test]
fn bmeas_of_min() {
    let (node, mgr) = min_xy();
    let pv = vec![
        ("x".to_string(), vec![0.2f64, 0.3, 0.5]),
        ("y".to_string(), vec![0.1f64, 0.6, 0.3]),
    ];
    // min = 0 with probability x0 + (x1 + x2) * y0
    let g = bmeas(&mgr, &node, &pv, &[0]).unwrap();
    assert_eq!(g.len(), 6);
    assert!((partial(&g, "x", 0) - 1.0).abs() < 1e-12);
    assert!((partial(&g, "x", 1) - 0.1).abs() < 1e-12);
    assert!((partial(&g, "x", 2) - 0.1).abs() < 1e-12);
    assert!((partial(&g, "y", 0) - 0.8).abs() < 1e-12);
    assert!(partial(&g, "y", 1).abs() < 1e-12);
    assert!(partial(&g, "y", 2).abs() < 1e-12);
    // the variable at the root comes first, its values in their order
    assert_eq!((g[0].0.as_str(), g[0].1), ("x", 0));
    assert_eq!((g[1].0.as_str(), g[1].1), ("x", 1));
}

#[test]
fn bmeas_matches_difference_quotient_value_by_value() {
    let (node, mgr) = create_mdd();
    let base = vec![
        ("x".to_string(), vec![0.2f64, 0.3, 0.5]),
        ("y".to_string(), vec![0.1f64, 0.6, 0.3]),
        ("z".to_string(), vec![0.25f64, 0.35, 0.4]),
    ];
    let h = 1e-6;
    for ss in [vec![0], vec![2], vec![1, 4]] {
        let g = bmeas(&mgr, &node, &base, &ss).unwrap();
        for (row, (label, ps)) in base.iter().enumerate() {
            for i in 0..ps.len() {
                let mut up = base.clone();
                up[row].1[i] += h;
                let mut down = base.clone();
                down[row].1[i] -= h;
                let quotient = (prob(&mgr, &node, &up, &ss).unwrap()
                    - prob(&mgr, &node, &down, &ss).unwrap())
                    / (2.0 * h);
                let stated = g.iter().find(|e| &e.0 == label && e.1 == i).map_or(0.0, |e| e.2);
                assert!((stated - quotient).abs() < 1e-6, "{label} {i}: {stated} {quotient}");
            }
        }
    }
}

#[test]
fn bmeas_on_integers_and_on_a_terminal() {
    let (node, mgr) = min_xy();
    let pv = vec![("x".to_string(), vec![1i64, 2, 3]), ("y".to_string(), vec![4i64, 5, 6])];
    // min = 2 with weight x2 * y2
    let g = bmeas(&mgr, &node, &pv, &[2]).unwrap();
    let at = |label: &str, i: usize| {
        g.iter().find(|e| e.0 == label && e.1 == i).map(|e| e.2).unwrap()
    };
    assert_eq!((at("x", 0), at("x", 1), at("x", 2)), (0, 0, 6));
    assert_eq!((at("y", 0), at("y", 1), at("y", 2)), (0, 0, 3));
    let one = mgr.one();
    assert_eq!(bmeas(&mgr, &one, &pv, &[1]), Ok(vec![]));
}

#[test]
fn bmeas_refuses_undetermined_and_unknown_nodes() {
    let mut mgr = MtMdd2Manager::<i32>::new();
    let h = mgr.mtmdd.create_header(0, "x", 2);
    let t = mgr.mtmdd.terminal(1);
    let undet = mgr.mtmdd.undet();
    let f = mgr.mtmdd.create_node(h, &[t, undet]);
    let pv = vec![("x".to_string(), vec![0.5f64, 0.5])];
    assert_eq!(bmeas(&mgr, &Node::Value(f), &pv, &[1]), Err(Error::InvalidDiagram));
    assert_eq!(bmeas(&mgr, &Node::Value(999), &pv, &[1]), Err(Error::MissingNode));
    assert_eq!(bmeas(&mgr, &Node::Bool(999), &pv, &[1]), Err(Error::MissingNode));
}

#[test]
fn without_n_and_minsol_n_enter_their_results() {
    let (node, mut mgr) = min_xy();
    let f = match node {
        Node::Value(id) => id,
        Node::Bool(id) => id,
    };
    let mut memo: HashMap<usize, usize> = HashMap::new();
    let mut pairs: HashMap<u128, usize> = HashMap::new();
    let m = minsol_n(&mut mgr.mtmdd, f, &mut memo, &mut pairs);
    assert_eq!(memo[&f], m);
    let held = pairs.clone();
    let r = without_n(&mut mgr.mtmdd, f, m, &mut pairs);
    assert_eq!(pairs[&(((f as u128) << 64) + m as u128)], r);
    for (k, v) in held.iter() {
        assert_eq!(pairs[k], *v);
    }
    // a terminal makes no node
    let t = mgr.mtmdd.terminal(2);
    let size = mgr.mtmdd.size();
    let again = minsol_n(&mut mgr.mtmdd, t, &mut memo, &mut pairs);
    assert_eq!(again, t);
    assert_eq!(memo[&t], t);
    assert_eq!(mgr.mtmdd.size(), size);
}

#[test]
fn memos_hold_what_the_walk_met() {
    let (node, mgr) = min_xy();
    let f = match node {
        Node::Value(id) => id,
        Node::Bool(id) => id,
    };
    // the terminals 0, 1, 2 are the nodes 1, 2, 3; the two nodes on y are 4 and 5
    assert_eq!(f, 6);
    let pv = vec![("x".to_string(), vec![1i64, 2, 3]), ("y".to_string(), vec![4i64, 5, 6])];
    let mut probs: HashMap<usize, i64> = HashMap::new();
    let p = prob_in(&mgr.mtmdd, f, &pv, &[0], &mut probs).unwrap();
    let mut keys: Vec<usize> = probs.keys().copied().collect();
    keys.sort();
    assert_eq!(keys, vec![1, 2, 3, 4, 5, 6]);
    assert_eq!(probs[&f], p);
    assert_eq!((probs[&1], probs[&2], probs[&4], probs[&5]), (1, 0, 4, 4));
    let mut other: HashMap<usize, i64> = HashMap::new();
    assert_eq!(prob_in(&mgr.mtmdd, f, &pv, &[0], &mut other), Ok(p));
    assert_eq!(probs, other);
    // a memo that holds a node is not walked below that node
    let mut part: HashMap<usize, u64> = HashMap::new();
    part.insert(5, 1);
    let n = zmdd_count_rec(&mgr.mtmdd, f, &[2], &mut part);
    assert_eq!(n, 1);
    let mut keys: Vec<usize> = part.keys().copied().collect();
    keys.sort();
    assert_eq!(keys, vec![1, 2, 4, 5, 6]);
    assert_eq!(part[&f], n);
}
