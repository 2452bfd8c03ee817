use lean_checker::graph::depth_first;
use lean_checker::key::block_key_from_all;
use lean_checker::order::topo_order;
use lean_checker::snapshot::ConstMeta;
use lean_checker::snapshot::KIND_AXIOM;
use lean_checker::snapshot::KIND_CTOR;
use lean_checker::snapshot::KIND_DEF;
use lean_checker::snapshot::KIND_INDUCT;
use lean_checker::snapshot::KIND_REC;
use lean_checker::units::assign_units;

fn strings(all: &[&str]) -> Vec<String> {
    all.iter().map(|s| s.to_string()).collect()
}

fn meta(kind: u8, name: &str, deps: &[&str]) -> ConstMeta {
    ConstMeta {
        name: name.to_string(),
        kind,
        deps: strings(deps),
        induct_all: Vec::new(),
        rec_all: Vec::new(),
        induct: String::new(),
    }
}

fn inductive(name: &str, all: &[&str], deps: &[&str]) -> ConstMeta {
    ConstMeta { induct_all: strings(all), ..meta(KIND_INDUCT, name, deps) }
}

fn constructor(name: &str, induct: &str) -> ConstMeta {
    ConstMeta { induct: induct.to_string(), ..meta(KIND_CTOR, name, &[]) }
}

fn recursor(name: &str, all: &[&str]) -> ConstMeta {
    ConstMeta { rec_all: strings(all), ..meta(KIND_REC, name, &[]) }
}

fn block_key(all: &[&str]) -> String {
    block_key_from_all(strings(all))
}

#[test]
fn keys_are_sorted_and_joined() {
    assert_eq!(block_key(&[]), "");
    assert_eq!(block_key(&["B"]), "B");
    assert_eq!(block_key(&["B", "A", "AB"]), "A\u{1}AB\u{1}B");
    assert_eq!(block_key(&["b", "a", "a"]), "a\u{1}a\u{1}b");
    assert_eq!(block_key(&["é", "z", ""]), "\u{1}z\u{1}é");
}

#[test]
fn keys_ignore_order() {
    assert_eq!(block_key(&["A", "B", "C"]), block_key(&["C", "A", "B"]));
}

#[test]
fn keys_tell_blocks_apart() {
    assert_ne!(block_key(&["A", "B"]), block_key(&["AB"]));
    assert_ne!(block_key(&["A", "B"]), block_key(&["A"]));
    assert_ne!(block_key(&["A", "A"]), block_key(&["A"]));
}

#[test]
fn keys_sort_as_std_does() {
    let mut all = strings(&["Nat", "List", "Lis", "\u{1F600}", "\u{FFFD}", "a.b", "a", "", "Ω"]);
    let key = block_key_from_all(all.clone());
    all.sort();
    assert_eq!(key, all.join("\u{1}"));
}

#[test]
fn blocks_share_a_unit() {
    let metas = vec![
        meta(KIND_AXIOM, "a", &[]),
        inductive("T", &["T", "S"], &[]),
        meta(KIND_DEF, "d", &[]),
        constructor("S.mk", "S"),
        recursor("T.rec", &["S", "T"]),
        inductive("S", &["S", "T"], &[]),
        inductive("U", &["U"], &[]),
        constructor("X.mk", "X"),
    ];
    let us = assign_units(&metas);
    assert_eq!(us.unit_of, vec![0, 1, 2, 1, 1, 1, 3, 4]);
    let members: Vec<Vec<usize>> = us.units.iter().map(|u| u.members.clone()).collect();
    assert_eq!(members, vec![vec![0], vec![1, 3, 4, 5], vec![2], vec![6], vec![7]]);
    let blocks: Vec<bool> = us.units.iter().map(|u| u.is_block).collect();
    assert_eq!(blocks, vec![false, true, false, true, true]);
}

#[test]
fn no_constants_no_units() {
    let us = assign_units(&Vec::new());
    assert!(us.units.is_empty());
    assert!(us.unit_of.is_empty());
    assert!(topo_order(&Vec::new(), &us, &Vec::new()).is_empty());
}

#[test]
fn dependencies_come_first() {
    let metas = vec![
        meta(KIND_AXIOM, "c", &["b", "a"]),
        meta(KIND_AXIOM, "b", &["a"]),
        meta(KIND_AXIOM, "a", &["nowhere"]),
    ];
    let us = assign_units(&metas);
    assert_eq!(topo_order(&metas, &us, &Vec::new()), vec![2, 1, 0]);
    assert_eq!(topo_order(&metas, &us, &strings(&["b"])), vec![2, 1]);
    assert_eq!(topo_order(&metas, &us, &strings(&["a", "c"])), vec![2, 1, 0]);
    assert_eq!(topo_order(&metas, &us, &strings(&["x"])), Vec::<usize>::new());
}

#[test]
fn a_name_stands_for_its_last_constant() {
    let metas = vec![
        meta(KIND_AXIOM, "a", &[]),
        meta(KIND_AXIOM, "a", &[]),
        meta(KIND_AXIOM, "b", &["a"]),
    ];
    let us = assign_units(&metas);
    assert_eq!(topo_order(&metas, &us, &strings(&["b"])), vec![1, 2]);
}

#[test]
fn post_order_of_a_graph() {
    let g = vec![vec![1, 2], vec![3], vec![3], vec![]];
    assert_eq!(depth_first(&g, &vec![0]), vec![3, 1, 2, 0]);
    assert_eq!(depth_first(&g, &vec![2, 0, 2]), vec![3, 2, 1, 0]);
    assert_eq!(depth_first(&g, &vec![3, 1]), vec![3, 1]);
    assert_eq!(depth_first(&g, &vec![]), Vec::<usize>::new());
}

#[test]
fn back_edges_are_skipped() {
    let g = vec![vec![1], vec![2, 0], vec![1, 2]];
    assert_eq!(depth_first(&g, &vec![0]), vec![2, 1, 0]);
    assert_eq!(depth_first(&g, &vec![2, 1, 0]), vec![0, 1, 2]);
}

#[test]
fn deep_graphs_need_no_stack() {
    let n = 200_000;
    let g: Vec<Vec<usize>> = (0..n).map(|i| if i + 1 < n { vec![i + 1] } else { vec![] }).collect();
    let order = depth_first(&g, &vec![0]);
    let expect: Vec<usize> = (0..n).rev().collect();
    assert_eq!(order, expect);
}
