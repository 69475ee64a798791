use dd_analysis::bdd_count::{bdd_count, node_count, zdd_count};
use dd_analysis::bdd_minsol::{minsol, without};
use dd_analysis::bdd_path::{bdd_path, BddPath, ZddPath};
use dd_analysis::bdd_prob::{bmeas, prob, topological_sort};
use dd_analysis::common::Error;
use dd_analysis::numeric::power;
use dd_analysis::table::NodeTable;
use std::collections::{HashMap, HashSet};

/// A table with the variables z, y and x at the levels 0, 1 and 2.
fn three_vars() -> (NodeTable<bool>, usize, usize, usize) {
    let mut dd = NodeTable::new_boolean();
    let hz = dd.create_header(0, "z", 2);
    let hy = dd.create_header(1, "y", 2);
    let hx = dd.create_header(2, "x", 2);
    (dd, hx, hy, hz)
}

/// x and (y or z), with x above y above z.
fn and_or() -> (NodeTable<bool>, usize) {
    let (mut dd, hx, hy, hz) = three_vars();
    let (zero, one) = (dd.zero(), dd.one());
    let z = dd.create_node(hz, &[zero, one]);
    let yz = dd.create_node(hy, &[z, one]);
    let f = dd.create_node(hx, &[zero, yz]);
    (dd, f)
}

/// x or y or z.
fn or3() -> (NodeTable<bool>, usize) {
    let (mut dd, hx, hy, hz) = three_vars();
    let (zero, one) = (dd.zero(), dd.one());
    let z = dd.create_node(hz, &[zero, one]);
    let yz = dd.create_node(hy, &[z, one]);
    let f = dd.create_node(hx, &[yz, one]);
    (dd, f)
}

/// x xor y, with x above y.
fn xor2() -> (NodeTable<bool>, usize) {
    let mut dd = NodeTable::new_boolean();
    let hy = dd.create_header(0, "y", 2);
    let hx = dd.create_header(1, "x", 2);
    let (zero, one) = (dd.zero(), dd.one());
    let y = dd.create_node(hy, &[zero, one]);
    let ny = dd.create_node(hy, &[one, zero]);
    let f = dd.create_node(hx, &[y, ny]);
    (dd, f)
}

/// (x and y) or z, with the variables defined in the order x, y, z, so
/// that x stands lowest.
fn xy_or_z() -> (NodeTable<bool>, usize) {
    let mut dd = NodeTable::new_boolean();
    let hx = dd.create_header(0, "x", 2);
    let hy = dd.create_header(1, "y", 2);
    let hz = dd.create_header(2, "z", 2);
    let (zero, one) = (dd.zero(), dd.one());
    let x = dd.create_node(hx, &[zero, one]);
    let xy = dd.create_node(hy, &[zero, x]);
    let f = dd.create_node(hz, &[xy, one]);
    (dd, f)
}

fn count(dd: &NodeTable<bool>, ss: &[bool], f: usize) -> u64 {
    let mut cache = HashMap::new();
    bdd_count(dd, ss, f, &mut cache)
}

fn zcount(dd: &NodeTable<bool>, ss: &[bool], f: usize) -> u64 {
    let mut cache = HashMap::new();
    zdd_count(dd, ss, f, &mut cache)
}

fn all_bdd_paths(dd: &NodeTable<bool>, f: usize, ss: &[bool]) -> Vec<Vec<String>> {
    let mut it = BddPath::new(dd, f, ss).unwrap();
    let mut out = Vec::new();
    while let Some(p) = it.next(dd) {
        out.push(p);
    }
    out
}

fn all_zdd_paths(dd: &NodeTable<bool>, f: usize, ss: &[bool]) -> Vec<Vec<String>> {
    let mut it = ZddPath::new(dd, f, ss).unwrap();
    let mut out = Vec::new();
    while let Some(p) = it.next(dd) {
        out.push(p);
    }
    out
}

fn strs(v: &[&str]) -> Vec<String> {
    v.iter().map(|s| s.to_string()).collect()
}

fn minimal(dd: &mut NodeTable<bool>, f: usize) -> usize {
    let mut cache1 = HashMap::new();
    let mut cache2 = HashMap::new();
    minsol(dd, f, &mut cache1, &mut cache2).unwrap()
}

#[test]
fn power_multiplies() {
    assert_eq!(power(2u64, 0), 1);
    assert_eq!(power(2u64, 10), 1024);
    assert_eq!(power(3u64, 4), 81);
    assert_eq!(power(2u128, 100), 1u128 << 100);
    assert_eq!(power(0u64, 0), 1);
    assert_eq!(power(0u64, 3), 0);
    assert_eq!(power(1u64, 1000), 1);
}

#[test]
fn count_of_and_or() {
    let (dd, f) = and_or();
    assert_eq!(count(&dd, &[true], f), 3);
    assert_eq!(count(&dd, &[false], f), 5);
    assert_eq!(count(&dd, &[true, false], f), 8);
    assert_eq!(zcount(&dd, &[true], f), 2);
    assert_eq!(zcount(&dd, &[true], f), all_zdd_paths(&dd, f, &[true]).len() as u64);
}

#[test]
fn count_of_or3() {
    let (dd, f) = or3();
    assert_eq!(count(&dd, &[true], f), 7);
    assert_eq!(count(&dd, &[false], f), 1);
}

#[test]
fn count_weighs_skipped_levels() {
    let (mut dd, hx, _hy, hz) = three_vars();
    let (zero, one) = (dd.zero(), dd.one());
    let z = dd.create_node(hz, &[zero, one]);
    let xz = dd.create_node(hx, &[zero, z]);
    // x and z: y is skipped between x and z, and nothing below z.
    assert_eq!(count(&dd, &[true], xz), 2);
    assert_eq!(count(&dd, &[false], xz), 6);
    // x alone at level 2: the terminal child spans both lower levels.
    let x = dd.create_node(hx, &[zero, one]);
    assert_eq!(count(&dd, &[true], x), 4);
    assert_eq!(zcount(&dd, &[true], x), 1);
}

#[test]
fn counts_add_up_to_all_assignments() {
    for (dd, f) in [and_or(), or3(), xor2(), xy_or_z()] {
        let k = dd.level(f).unwrap() as u32 + 1;
        let t = count(&dd, &[true], f);
        let n = count(&dd, &[false], f);
        assert_eq!(t + n, 2u64.pow(k));
        assert_eq!(count(&dd, &[true, false], f), 2u64.pow(k));
    }
}

#[test]
fn empty_target_set_counts_nothing() {
    let (dd, f) = and_or();
    assert_eq!(count(&dd, &[], f), 0);
    assert_eq!(zcount(&dd, &[], f), 0);
    assert!(all_bdd_paths(&dd, f, &[]).is_empty());
    assert!(all_zdd_paths(&dd, f, &[]).is_empty());
}

#[test]
fn terminal_roots() {
    let dd = NodeTable::new_boolean();
    assert_eq!(count(&dd, &[true], dd.one()), 1);
    assert_eq!(count(&dd, &[], dd.one()), 0);
    assert_eq!(count(&dd, &[true], dd.zero()), 0);
    assert_eq!(count(&dd, &[true, false], dd.undet()), 0);
    let pv: Vec<(String, f64)> = Vec::new();
    let mut cache = HashMap::new();
    assert_eq!(prob(&dd, dd.zero(), &pv, &[false], &mut cache), Ok(1.0));
    let mut cache = HashMap::new();
    assert_eq!(prob(&dd, dd.one(), &pv, &[false], &mut cache), Ok(0.0));
    assert_eq!(all_bdd_paths(&dd, dd.one(), &[true]), vec![Vec::<String>::new()]);
    assert!(all_bdd_paths(&dd, dd.zero(), &[true]).is_empty());
}

#[test]
fn memo_gives_what_a_fresh_run_gives() {
    let (dd, f) = and_or();
    let mut cache: HashMap<usize, u64> = HashMap::new();
    let first = bdd_count(&dd, &[true], f, &mut cache);
    assert!(cache.contains_key(&f));
    let again = bdd_count(&dd, &[true], f, &mut cache);
    let fresh = count(&dd, &[true], f);
    assert_eq!(first, again);
    assert_eq!(first, fresh);
    let pv = vec![("x".to_string(), 0.3f64), ("y".to_string(), 0.4), ("z".to_string(), 0.9)];
    let mut cache = HashMap::new();
    let first = prob(&dd, f, &pv, &[true], &mut cache).unwrap();
    let second = prob(&dd, f, &pv, &[true], &mut cache).unwrap();
    let mut other = HashMap::new();
    let third = prob(&dd, f, &pv, &[true], &mut other).unwrap();
    assert_eq!(first.to_bits(), second.to_bits());
    assert_eq!(first.to_bits(), third.to_bits());
}

#[test]
fn node_count_of_and_or() {
    let (dd, f) = and_or();
    let mut seen = HashSet::new();
    let (inner, others, edges): (u64, u64, u64) = node_count(&dd, f, &mut seen);
    assert_eq!((inner, others, edges), (3, 2, 7));
    // everything is seen now
    let again: (u64, u64, u64) = node_count(&dd, f, &mut seen);
    assert_eq!(again, (0, 0, 1));
}

#[test]
fn prob_of_xor() {
    let (dd, f) = xor2();
    let pv = vec![("x".to_string(), 0.3f64), ("y".to_string(), 0.4)];
    let mut cache = HashMap::new();
    let p = prob(&dd, f, &pv, &[true], &mut cache).unwrap();
    assert!((p - 0.46).abs() < 1e-12);
    let g = bmeas(&dd, &[true], f, &pv).unwrap();
    let of = |name: &str| g.iter().find(|e| e.0 == name).unwrap().1;
    assert_eq!(g.len(), 2);
    assert!((of("x") - 0.2).abs() < 1e-12);
    assert!((of("y") - 0.4).abs() < 1e-12);
}

#[test]
fn prob_is_exact_on_small_numbers() {
    // (1 - p) * low + p * high, in this order, on integers
    let (dd, f) = and_or();
    let pv = vec![("x".to_string(), 3i64), ("y".to_string(), 5), ("z".to_string(), 7)];
    let mut cache = HashMap::new();
    // z: (1-7)*0 + 7*1 = 7; y: (1-5)*7 + 5*1 = -23; x: (1-3)*0 + 3*(-23) = -69
    assert_eq!(prob(&dd, f, &pv, &[true], &mut cache), Ok(-69));
}

#[test]
fn missing_label_counts_as_zero() {
    let (dd, f) = and_or();
    let pv = vec![("x".to_string(), 1.0f64), ("z".to_string(), 0.25)];
    let mut cache = HashMap::new();
    // y is missing: p(y) = 0, so the value is p(x) * p(z)
    assert_eq!(prob(&dd, f, &pv, &[true], &mut cache), Ok(0.25));
}

#[test]
fn probabilities_stay_between_zero_and_one() {
    for (dd, f) in [and_or(), or3(), xor2(), xy_or_z()] {
        for p in [0.0f64, 0.1, 0.5, 0.9, 1.0] {
            let pv = vec![("x".to_string(), p), ("y".to_string(), 1.0 - p), ("z".to_string(), p)];
            for ss in [vec![true], vec![false], vec![true, false], vec![]] {
                let mut cache = HashMap::new();
                let v = prob(&dd, f, &pv, &ss, &mut cache).unwrap();
                assert!((0.0..=1.0).contains(&v));
            }
        }
    }
}

#[test]
fn even_odds_give_the_count() {
    for (dd, f) in [and_or(), or3(), xor2(), xy_or_z()] {
        let pv = vec![("x".to_string(), 0.5f64), ("y".to_string(), 0.5), ("z".to_string(), 0.5)];
        let mut cache = HashMap::new();
        let p = prob(&dd, f, &pv, &[true], &mut cache).unwrap();
        let k = dd.level(f).unwrap() as i32 + 1;
        assert_eq!(p * 2f64.powi(k), count(&dd, &[true], f) as f64);
    }
}

#[test]
fn gradient_matches_difference_quotient() {
    let (dd, f) = and_or();
    let names = ["x", "y", "z"];
    let base = [0.3f64, 0.6, 0.2];
    let pv: Vec<(String, f64)> = names.iter().zip(base).map(|(n, p)| (n.to_string(), p)).collect();
    let g = bmeas(&dd, &[true], f, &pv).unwrap();
    let mut cache = HashMap::new();
    let base_prob = prob(&dd, f, &pv, &[true], &mut cache).unwrap();
    let eps = 1e-6;
    let mut weighted = 0.0;
    for (i, name) in names.iter().enumerate() {
        let mut moved = pv.clone();
        moved[i].1 += eps;
        let mut cache = HashMap::new();
        let first = prob(&dd, f, &moved, &[true], &mut cache).unwrap();
        let d = g.iter().find(|e| e.0 == *name).unwrap().1;
        assert!(((first - base_prob) / eps - d).abs() < 1e-6);
        weighted += base[i] * (1.0 - base[i]) * d * d;
    }
    assert!(weighted.is_finite());
}

#[test]
fn gradient_of_a_terminal_is_empty() {
    let dd = NodeTable::new_boolean();
    let pv: Vec<(String, f64)> = Vec::new();
    assert_eq!(bmeas(&dd, &[true], dd.one(), &pv), Ok(Vec::new()));
}

#[test]
fn undetermined_node_is_refused() {
    let (mut dd, hx, _, _) = three_vars();
    let undet = dd.undet();
    let one = dd.one();
    let f = dd.create_node(hx, &[undet, one]);
    let pv = vec![("x".to_string(), 0.5f64)];
    let mut cache = HashMap::new();
    assert_eq!(prob(&dd, f, &pv, &[true], &mut cache), Err(Error::InvalidDiagram));
    assert_eq!(bmeas(&dd, &[true], f, &pv), Err(Error::InvalidDiagram));
    let mut cache1 = HashMap::new();
    let mut cache2 = HashMap::new();
    assert_eq!(minsol(&mut dd, f, &mut cache1, &mut cache2), Err(Error::InvalidDiagram));
    let mut cache2 = HashMap::new();
    assert_eq!(without(&mut dd, one, f, &mut cache2), Err(Error::InvalidDiagram));
    // the count takes it for nothing
    assert_eq!(count(&dd, &[true], f), 4);
}

#[test]
fn unknown_node_is_refused() {
    let (mut dd, f) = and_or();
    let pv: Vec<(String, f64)> = Vec::new();
    let mut cache = HashMap::new();
    assert_eq!(prob(&dd, 999, &pv, &[true], &mut cache), Err(Error::MissingNode));
    assert_eq!(bmeas(&dd, &[true], 999, &pv), Err(Error::MissingNode));
    assert_eq!(topological_sort(&dd, 999), Err(Error::MissingNode));
    assert!(matches!(BddPath::new(&dd, 999, &[true]), Err(Error::MissingNode)));
    assert!(matches!(ZddPath::new(&dd, 999, &[true]), Err(Error::MissingNode)));
    let mut cache1 = HashMap::new();
    let mut cache2 = HashMap::new();
    assert_eq!(minsol(&mut dd, 999, &mut cache1, &mut cache2), Err(Error::MissingNode));
    assert!(f < 999);
}

#[test]
fn level_without_header_is_refused() {
    let mut dd = NodeTable::new_boolean();
    let hx = dd.create_header(2, "x", 2);
    let (zero, one) = (dd.zero(), dd.one());
    let x = dd.create_node(hx, &[zero, one]);
    assert!(matches!(BddPath::new(&dd, x, &[true]), Err(Error::MissingHeader)));
    // counting needs no names
    assert_eq!(count(&dd, &[true], x), 4);
}

#[test]
fn topological_order_of_and_or() {
    let (dd, f) = and_or();
    let order = topological_sort(&dd, f).unwrap();
    assert_eq!(order.len(), 5);
    assert_eq!(order[0], f);
    let place = |id: usize| order.iter().position(|&n| n == id).unwrap();
    for &n in &order {
        if let Some(dd_analysis::table::Node::NonTerminal { children, .. }) = dd.get_node(n) {
            for &c in children {
                assert!(place(n) < place(c));
            }
        }
    }
    let mut sorted = order.clone();
    sorted.sort();
    sorted.dedup();
    assert_eq!(sorted.len(), order.len());
}

#[test]
fn paths_of_and_or() {
    let (dd, f) = and_or();
    let paths = all_bdd_paths(&dd, f, &[true]);
    assert_eq!(
        paths,
        vec![strs(&["z", "~y", "x"]), strs(&["~z", "y", "x"]), strs(&["z", "y", "x"])]
    );
    let it = BddPath::new(&dd, f, &[true]).unwrap();
    assert_eq!(it.len(&dd), 3);
    assert_eq!(all_bdd_paths(&dd, f, &[false]).len(), 5);
    let it = BddPath::new(&dd, f, &[false]).unwrap();
    assert_eq!(it.len(&dd), 5);
    assert_eq!(all_bdd_paths(&dd, f, &[true, false]).len(), 8);
    let zpaths = all_zdd_paths(&dd, f, &[true]);
    assert_eq!(zpaths, vec![strs(&["z", "x"]), strs(&["y", "x"])]);
    let it = ZddPath::new(&dd, f, &[true]).unwrap();
    assert_eq!(it.len(&dd), 2);
}

#[test]
fn path_numbers_agree_with_counts() {
    for (dd, f) in [and_or(), or3(), xor2(), xy_or_z()] {
        for ss in [vec![true], vec![false], vec![true, false], vec![]] {
            let paths = all_bdd_paths(&dd, f, &ss);
            assert_eq!(paths.len() as u64, count(&dd, &ss, f));
            let unique: HashSet<&Vec<String>> = paths.iter().collect();
            assert_eq!(unique.len(), paths.len());
            let zpaths = all_zdd_paths(&dd, f, &ss);
            assert_eq!(zpaths.len() as u64, zcount(&dd, &ss, f));
        }
    }
}

#[test]
fn iterator_is_done_when_it_says_so() {
    let (dd, f) = xor2();
    let mut it = BddPath::new(&dd, f, &[true]).unwrap();
    assert_eq!(it.next(&dd), Some(strs(&["y", "~x"])));
    assert_eq!(it.next(&dd), Some(strs(&["~y", "x"])));
    assert_eq!(it.next(&dd), None);
    assert_eq!(it.next(&dd), None);
}

#[test]
fn minsol_of_and_or() {
    let (mut dd, f) = and_or();
    let g = minimal(&mut dd, f);
    let mut sets = all_zdd_paths(&dd, g, &[true]);
    sets.sort();
    assert_eq!(sets, vec![strs(&["y", "x"]), strs(&["z", "x"])]);
}

#[test]
fn minsol_of_or3() {
    let (mut dd, f) = or3();
    let g = minimal(&mut dd, f);
    let mut sets = all_zdd_paths(&dd, g, &[true]);
    sets.sort();
    assert_eq!(sets, vec![strs(&["x"]), strs(&["y"]), strs(&["z"])]);
}

#[test]
fn minsol_keeps_terminals_and_old_nodes() {
    let (mut dd, f) = and_or();
    let before = dd.size();
    let (zero, one) = (dd.zero(), dd.one());
    assert_eq!(minimal(&mut dd, zero), zero);
    assert_eq!(minimal(&mut dd, one), one);
    assert_eq!(dd.size(), before);
    let g = minimal(&mut dd, f);
    assert!(dd.size().1 >= before.1);
    assert_eq!(dd.validate(), Ok(()));
    // the old diagram still counts as before
    assert_eq!(count(&dd, &[true], f), 3);
    // asking again gives the same node
    assert_eq!(minimal(&mut dd, f), g);
}

#[test]
fn without_follows_its_rules() {
    let (mut dd, f) = and_or();
    let (zero, one) = (dd.zero(), dd.one());
    let mut cache = HashMap::new();
    assert_eq!(without(&mut dd, zero, f, &mut cache), Ok(zero));
    assert_eq!(without(&mut dd, f, zero, &mut cache), Ok(f));
    assert_eq!(without(&mut dd, f, one, &mut cache), Ok(zero));
    assert_eq!(without(&mut dd, f, f, &mut cache), Ok(zero));
    // true without x is "not x"
    let (mut dd, hx, _, _) = three_vars();
    let x = dd.create_node(hx, &[zero, one]);
    let mut cache = HashMap::new();
    let r = without(&mut dd, one, x, &mut cache).unwrap();
    let not_x = dd.create_node(hx, &[one, zero]);
    assert_eq!(r, not_x);
}

#[test]
fn bdd_extract_test_bdd_path() {
    // x and (y or z), the variables defined in the order x, y, z
    let mut bdd = NodeTable::new_boolean();
    let hx = bdd.create_header(0, "x", 2);
    let hy = bdd.create_header(1, "y", 2);
    let hz = bdd.create_header(2, "z", 2);
    let x = bdd.create_node(hx, &[bdd.zero(), bdd.one()]);
    let yx = bdd.create_node(hy, &[bdd.zero(), x]);
    let f = bdd.create_node(hz, &[yx, x]);
    let mut path = bdd_path(&bdd, f).unwrap();
    let mut count = 0;
    while let Some(p) = path.next(&bdd) {
        count += 1;
        println!("{:?}", p);
    }
    assert_eq!(count, 2);
}

#[test]
fn bdd_extract_test_bdd_path2() {
    // x or y or z, the variables defined in the order x, y, z
    let mut bdd = NodeTable::new_boolean();
    let hx = bdd.create_header(0, "x", 2);
    let hy = bdd.create_header(1, "y", 2);
    let hz = bdd.create_header(2, "z", 2);
    let x = bdd.create_node(hx, &[bdd.zero(), bdd.one()]);
    let yx = bdd.create_node(hy, &[x, bdd.one()]);
    let f = bdd.create_node(hz, &[yx, bdd.one()]);
    let mut path = bdd_path(&bdd, f).unwrap();
    let mut count = 0;
    while let Some(p) = path.next(&bdd) {
        count += 1;
        println!("{:?}", p);
    }
    assert_eq!(count, 3);
}

#[test]
fn test_bss_mgr_prob() {
    let (dd, f) = xy_or_z();
    let pv = vec![("x".to_string(), 0.2f64), ("y".to_string(), 0.3), ("z".to_string(), 0.6)];
    let mut cache = HashMap::new();
    let result = prob(&dd, f, &pv, &[true], &mut cache).unwrap();
    println!("{:?}", result);
    assert!((result - (0.6 + 0.4 * 0.06)).abs() < 1e-12);
}

#[test]
fn bss_test_bdd_path() {
    let (dd, z) = xy_or_z();
    let mut path = BddPath::new(&dd, z, &[true]).unwrap();
    let mut count = 0;
    while let Some(p) = path.next(&dd) {
        count += 1;
        println!("{:?}", p);
    }
    assert_eq!(count, 5);
}

#[test]
fn bss_test_bdd_path2() {
    let (dd, z) = xy_or_z();
    let mut path = BddPath::new(&dd, z, &[false]).unwrap();
    let mut count = 0;
    while let Some(p) = path.next(&dd) {
        count += 1;
        println!("{:?}", p);
    }
    assert_eq!(count, 3);
}

#[test]
fn test_zdd_path() {
    let (dd, z) = xy_or_z();
    let mut path = ZddPath::new(&dd, z, &[true]).unwrap();
    let mut count = 0;
    while let Some(p) = path.next(&dd) {
        count += 1;
        println!("{:?}", p);
    }
    assert_eq!(count, 2);
}

#[test]
fn minsol_follows_the_rules_where_they_keep_more() {
    // x or (y and w), with x above y above w: true without "y and w" is
    // taken apart on y, and the set {x, y} stays beside {x}
    let mut dd = NodeTable::new_boolean();
    let hw = dd.create_header(0, "w", 2);
    let hy = dd.create_header(1, "y", 2);
    let hx = dd.create_header(2, "x", 2);
    let (zero, one) = (dd.zero(), dd.one());
    let w = dd.create_node(hw, &[zero, one]);
    let yw = dd.create_node(hy, &[zero, w]);
    let f = dd.create_node(hx, &[yw, one]);
    let g = minimal(&mut dd, f);
    let mut sets = all_zdd_paths(&dd, g, &[true]);
    sets.sort();
    assert_eq!(sets, vec![strs(&["w", "y"]), strs(&["x"]), strs(&["y", "x"])]);
}

#[test]
fn without_fails_only_where_no_rule_applies() {
    let (mut dd, hx, _, _) = three_vars();
    let (undet, zero, one) = (dd.undet(), dd.zero(), dd.one());
    let f = dd.create_node(hx, &[undet, one]);
    let mut cache = HashMap::new();
    // the first three rules ask for nothing below
    assert_eq!(without(&mut dd, zero, f, &mut cache), Ok(zero));
    assert_eq!(without(&mut dd, f, zero, &mut cache), Ok(f));
    assert_eq!(without(&mut dd, f, one, &mut cache), Ok(zero));
    assert_eq!(without(&mut dd, zero, undet, &mut cache), Ok(zero));
    assert_eq!(without(&mut dd, undet, zero, &mut cache), Ok(undet));
    // a node without itself is false, whatever it holds
    assert_eq!(without(&mut dd, f, f, &mut cache), Ok(zero));
    // here the undetermined node is met
    assert_eq!(without(&mut dd, one, undet, &mut cache), Err(Error::InvalidDiagram));
    assert_eq!(without(&mut dd, undet, f, &mut cache), Err(Error::InvalidDiagram));
    assert_eq!(without(&mut dd, one, f, &mut cache), Err(Error::InvalidDiagram));
}

#[test]
fn every_set_of_minsol_is_a_solution_and_covers() {
    // x or (y and w): each set that is handed out makes the function true,
    // and below every solution there is one of them
    let mut dd = NodeTable::new_boolean();
    let hw = dd.create_header(0, "w", 2);
    let hy = dd.create_header(1, "y", 2);
    let hx = dd.create_header(2, "x", 2);
    let (zero, one) = (dd.zero(), dd.one());
    let w = dd.create_node(hw, &[zero, one]);
    let yw = dd.create_node(hy, &[zero, w]);
    let f = dd.create_node(hx, &[yw, one]);
    let g = minimal(&mut dd, f);
    let sets = all_zdd_paths(&dd, g, &[true]);
    let holds = |s: &[&str]| s.contains(&"x") || (s.contains(&"y") && s.contains(&"w"));
    for set in &sets {
        let names: Vec<&str> = set.iter().map(|n| n.as_str()).collect();
        assert!(holds(&names));
    }
    for bits in 0..8u32 {
        let chosen: Vec<&str> = ["w", "y", "x"]
            .iter()
            .enumerate()
            .filter(|(i, _)| bits & (1 << i) != 0)
            .map(|(_, n)| *n)
            .collect();
        let covered = sets.iter().any(|set| set.iter().all(|n| chosen.contains(&n.as_str())));
        assert_eq!(holds(&chosen), covered);
    }
}

#[test]
fn memo_holds_what_the_walk_met() {
    let (dd, f) = and_or();
    // and_or: z = 3, y or z = 4, f = 5; the walk from f meets 1, 3, 2, 4 and 5
    let mut cache: HashMap<usize, u64> = HashMap::new();
    let n = bdd_count(&dd, &[true], f, &mut cache);
    let mut keys: Vec<usize> = cache.keys().copied().collect();
    keys.sort();
    assert_eq!(keys, vec![1, 2, 3, 4, 5]);
    assert_eq!(cache[&f], n);
    assert_eq!((cache[&1], cache[&2], cache[&3], cache[&4]), (0, 1, 1, 3));
    // a memo that holds a node is not walked below that node
    let mut part: HashMap<usize, u64> = HashMap::new();
    part.insert(4, 3);
    let again = bdd_count(&dd, &[true], f, &mut part);
    assert_eq!(again, n);
    let mut keys: Vec<usize> = part.keys().copied().collect();
    keys.sort();
    assert_eq!(keys, vec![1, 4, 5]);
    let mut zcache: HashMap<usize, u64> = HashMap::new();
    let z = zdd_count(&dd, &[true], f, &mut zcache);
    assert_eq!(zcache[&f], z);
    assert_eq!(zcache.len(), 5);
}

#[test]
fn two_fresh_memos_of_prob_end_alike() {
    let (dd, f) = and_or();
    let pv = vec![("x".to_string(), 0.3f64), ("y".to_string(), 0.4), ("z".to_string(), 0.9)];
    let mut one = HashMap::new();
    let mut two = HashMap::new();
    let a = prob(&dd, f, &pv, &[true], &mut one).unwrap();
    let b = prob(&dd, f, &pv, &[true], &mut two).unwrap();
    assert_eq!(a.to_bits(), b.to_bits());
    assert_eq!(one.len(), 5);
    assert_eq!(one.len(), two.len());
    for (k, v) in one.iter() {
        assert_eq!(v.to_bits(), two[k].to_bits());
    }
    assert_eq!(one[&f].to_bits(), a.to_bits());
}

#[test]
fn without_and_minsol_enter_their_results() {
    let (mut dd, f) = or3();
    let (zero, one) = (dd.zero(), dd.one());
    let mut pairs: HashMap<u128, usize> = HashMap::new();
    let key = |f: usize, g: usize| ((f as u128) << 64) + g as u128;
    let r = without(&mut dd, one, f, &mut pairs).unwrap();
    assert_eq!(pairs[&key(one, f)], r);
    let held = pairs.clone();
    let again = without(&mut dd, one, f, &mut pairs).unwrap();
    assert_eq!(again, r);
    assert_eq!(pairs, held);
    assert_eq!(without(&mut dd, f, zero, &mut pairs), Ok(f));
    assert_eq!(pairs[&key(f, zero)], f);
    for (k, v) in held.iter() {
        assert_eq!(pairs[k], *v);
    }
    let mut memo: HashMap<usize, usize> = HashMap::new();
    let mut pairs: HashMap<u128, usize> = HashMap::new();
    let m = minsol(&mut dd, f, &mut memo, &mut pairs).unwrap();
    assert_eq!(memo[&f], m);
    // a terminal is its own minimal solution, is entered, and makes no node
    let size = dd.size();
    assert_eq!(minsol(&mut dd, one, &mut memo, &mut pairs), Ok(one));
    assert_eq!(minsol(&mut dd, zero, &mut memo, &mut pairs), Ok(zero));
    assert_eq!((memo[&one], memo[&zero]), (one, zero));
    assert_eq!(dd.size(), size);
}

#[test]
fn without_refuses_unknown_nodes() {
    let (mut dd, f) = and_or();
    let one = dd.one();
    let mut pairs: HashMap<u128, usize> = HashMap::new();
    assert_eq!(without(&mut dd, 999, f, &mut pairs), Err(Error::MissingNode));
    assert_eq!(without(&mut dd, f, 999, &mut pairs), Err(Error::MissingNode));
    assert_eq!(without(&mut dd, 999, one, &mut pairs), Err(Error::MissingNode));
    assert!(pairs.is_empty());
}
