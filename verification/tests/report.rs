use flowlog_profiler::addr::Addr;
use flowlog_profiler::log::{LogIndex, LogRow};
use flowlog_profiler::view::{build_report_data, build_rule_views, normalize_parents};
use flowlog_profiler::view::{NamedNode, ReportError, RuleNodeSpec, RuleSpec};

fn nm(s: &str) -> Vec<u8> {
    s.as_bytes().to_vec()
}

fn node(name: &str, children: &[&str], operators: &[&[u32]]) -> NamedNode {
    NamedNode {
        name: nm(name),
        label: format!("label {}", name),
        children: children.iter().map(|c| nm(c)).collect(),
        operators: operators.iter().map(|a| Addr::new(a.to_vec())).collect(),
    }
}

fn row(addr: &[u32], activations: u64, us: u64, op: &str) -> LogRow {
    LogRow {
        addr: Addr::new(addr.to_vec()),
        activations,
        total_active_us: us,
        op_name: op.to_string(),
    }
}

fn log_of(rows: Vec<LogRow>) -> LogIndex {
    let mut log = LogIndex::new();
    for r in rows {
        assert!(log.insert_row(r));
    }
    log
}

#[test]
fn address_conflict_names_both_claimants() {
    // two distinct nodes claim [0, 1]: the run must fail and name both
    let nodes = vec![
        node("a", &[], &[&[0, 1]]),
        node("b", &[], &[&[0, 1]]),
    ];
    let log = log_of(vec![]);
    let r = build_report_data(&nodes, &vec![], &vec![], &vec![], &log);
    match r {
        Err(ReportError::AddressConflict { addr, first, second }) => {
            assert_eq!(addr, vec![0, 1]);
            assert_eq!(first, nm("a"));
            assert_eq!(second, nm("b"));
        }
        Ok(_) => panic!("conflict not detected"),
    }
}

#[test]
fn no_conflict_on_distinct_addresses() {
    let nodes = vec![
        node("a", &[], &[&[0, 1]]),
        node("b", &[], &[&[0, 2]]),
    ];
    let log = log_of(vec![]);
    assert!(build_report_data(&nodes, &vec![], &vec![], &vec![], &log).is_ok());
}

#[test]
fn primary_parent_is_smallest_in_any_order() {
    // declared parents {C, B} in either order: primary is B, extras [C]
    let p1 = normalize_parents(vec![nm("C"), nm("B")]);
    let p2 = normalize_parents(vec![nm("B"), nm("C")]);
    assert_eq!(p1, vec![nm("B"), nm("C")]);
    assert_eq!(p1, p2);
}

#[test]
fn normalize_parents_sorts_and_dedups() {
    let p = normalize_parents(vec![nm("z"), nm("a"), nm("z"), nm("m")]);
    assert_eq!(p, vec![nm("a"), nm("m"), nm("z")]);
}

#[test]
fn unmapped_address_is_tolerated() {
    // one mapped and one unmapped address: totals come from the mapped
    // address only, one warning is emitted, and the run succeeds
    let nodes = vec![node("a", &[], &[&[0, 1], &[0, 2]])];
    let log = log_of(vec![row(&[0, 1], 7, 1500, "OpOne")]);
    let (rep, warns) =
        build_report_data(&nodes, &vec![], &vec![], &vec![], &log).expect("run must succeed");
    assert_eq!(rep.nodes.len(), 1);
    assert_eq!(rep.nodes[0].self_activations, 7);
    assert_eq!(rep.nodes[0].self_total_active_us, 1500);
    assert_eq!(rep.nodes[0].operators.len(), 1);
    assert_eq!(rep.nodes[0].operators[0].addr, vec![0, 1]);
    assert_eq!(rep.nodes[0].operators[0].op_name, "OpOne");
    assert_eq!(warns.len(), 1);
    assert_eq!(warns[0].name, nm("a"));
    assert_eq!(warns[0].addr, vec![0, 2]);
    assert_eq!(rep.totals.operators_mapped, 1);
    assert_eq!(rep.totals.total_mapped_activations, 7);
    assert_eq!(rep.totals.total_mapped_us, 1500);
}

fn diamond() -> Vec<NamedNode> {
    vec![
        node("A", &["B", "C"], &[&[1]]),
        node("B", &["D"], &[&[2]]),
        node("C", &["D"], &[&[3]]),
        node("D", &[], &[&[4]]),
    ]
}

fn diamond_log() -> LogIndex {
    log_of(vec![
        row(&[1], 1, 100, "OpA"),
        row(&[2], 2, 200, "OpB"),
        row(&[3], 3, 300, "OpC"),
        row(&[4], 4, 400, "OpD"),
    ])
}

fn view_of<'a>(
    rep: &'a flowlog_profiler::view::ReportData,
    name: &str,
) -> &'a flowlog_profiler::view::NameNodeView {
    rep.nodes.iter().find(|v| v.name == nm(name)).expect("node missing")
}

#[test]
fn end_to_end_diamond() {
    // A -> [B, C], B -> [D], C -> [D]; every address measured
    let nodes = diamond();
    let log = diamond_log();
    let (rep, warns) =
        build_report_data(&nodes, &vec![], &vec![], &vec![], &log).expect("run must succeed");
    assert!(warns.is_empty());
    assert_eq!(rep.roots, vec![nm("A")]);
    assert_eq!(view_of(&rep, "A").children, vec![nm("B"), nm("C")]);
    assert_eq!(view_of(&rep, "B").children, vec![nm("D")]);
    assert_eq!(view_of(&rep, "C").children, Vec::<Vec<u8>>::new());
    assert_eq!(view_of(&rep, "D").children, Vec::<Vec<u8>>::new());
    assert_eq!(view_of(&rep, "D").dag_parents, vec![nm("B"), nm("C")]);
    assert_eq!(view_of(&rep, "D").extra_parents, vec![nm("C")]);
    assert_eq!(rep.totals.names, 4);
    assert_eq!(rep.totals.operators_in_log, 4);
    assert_eq!(rep.totals.operators_mapped, 4);
    assert_eq!(rep.totals.total_mapped_activations, 10);
    assert_eq!(rep.totals.total_mapped_us, 1000);
    // layout depths over the same DAG: A:0, B:1, C:1, D:2
    // (indices follow the name-sorted node list: A=0, B=1, C=2, D=3)
    let children: Vec<Vec<usize>> = vec![vec![1, 2], vec![3], vec![3], vec![]];
    let lay = flowlog_profiler::layout::layered_order(4, &children);
    assert!(lay.acyclic);
    assert_eq!(lay.topo_count, 4);
    assert_eq!(lay.depth, vec![0, 1, 1, 2]);
    assert_eq!(lay.order, vec![0, 1, 2, 3]);
    assert_eq!(lay.layers, vec![vec![0], vec![1, 2], vec![3]]);
}

#[test]
fn builder_is_idempotent() {
    let nodes = diamond();
    let log = diamond_log();
    let r1 = build_report_data(&nodes, &vec![], &vec![], &vec![], &log).expect("first run");
    let r2 = build_report_data(&nodes, &vec![], &vec![], &vec![], &log).expect("second run");
    assert!(r1.0 == r2.0);
    assert!(r1.1 == r2.1);
}

#[test]
fn cycle_still_yields_total_ordering() {
    // 0 -> 1 -> 2 -> 0 is a cycle; 3 is isolated
    let children: Vec<Vec<usize>> = vec![vec![1], vec![2], vec![0], vec![]];
    let lay = flowlog_profiler::layout::layered_order(4, &children);
    assert!(!lay.acyclic);
    assert_eq!(lay.topo_count, 1);
    let mut seen = vec![false; 4];
    for &c in lay.order.iter() {
        assert!(!seen[c], "node ordered twice");
        seen[c] = true;
    }
    assert!(seen.iter().all(|&s| s), "node missing from the ordering");
    assert_eq!(lay.depth.len(), 4);
    // the acyclic prefix is [3], the cyclic remainder follows ascending
    assert_eq!(lay.order, vec![3, 0, 1, 2]);
}

#[test]
fn layered_order_empty_graph() {
    let children: Vec<Vec<usize>> = vec![];
    let lay = flowlog_profiler::layout::layered_order(0, &children);
    assert!(lay.order.is_empty());
    assert!(lay.layers.is_empty());
}

#[test]
fn rule_views_detect_shared_nodes() {
    // within one rule, t has two local parents (r and s): shared
    let rules = vec![RuleSpec {
        text: "r0".to_string(),
        root: nm("r"),
        nodes: vec![
            RuleNodeSpec { fingerprint: nm("r"), children: vec![nm("t")] },
            RuleNodeSpec { fingerprint: nm("s"), children: vec![nm("t")] },
            RuleNodeSpec { fingerprint: nm("t"), children: vec![] },
        ],
    }];
    let nodes = vec![node("n1", &[], &[])];
    let fp_map = vec![(nm("r"), nm("n1"))];
    let views = build_rule_views(&rules, &nodes, &fp_map);
    assert_eq!(views.len(), 1);
    let v = &views[0];
    assert_eq!(v.text, "r0");
    assert_eq!(v.root, nm("r"));
    let t = v.nodes.iter().find(|e| e.fingerprint == nm("t")).unwrap();
    assert!(t.shared);
    assert_eq!(t.parents, vec![nm("r"), nm("s")]);
    let r = v.nodes.iter().find(|e| e.fingerprint == nm("r")).unwrap();
    assert!(!r.shared);
    assert_eq!(r.node, Some(nm("n1")));
    assert_eq!(r.label, Some("label n1".to_string()));
    // an unmapped fingerprint leaves node and label empty
    let s = v.nodes.iter().find(|e| e.fingerprint == nm("s")).unwrap();
    assert_eq!(s.node, None);
    assert_eq!(s.label, None);
    assert!(!s.shared);
}

#[test]
fn supplied_roots_are_merged_and_sorted() {
    let nodes = vec![
        node("x", &["y"], &[]),
        node("y", &[], &[]),
        node("z", &[], &[]),
    ];
    let log = log_of(vec![]);
    let (rep, _) = build_report_data(&nodes, &vec![nm("x")], &vec![], &vec![], &log).unwrap();
    // x supplied and parentless, z parentless; y has a parent
    assert_eq!(rep.roots, vec![nm("x"), nm("z")]);
}

#[test]
fn tree_covers_every_node_exactly_once() {
    // every non-root appears in exactly one children list; roots in none
    let nodes = diamond();
    let log = diamond_log();
    let (rep, _) =
        build_report_data(&nodes, &vec![], &vec![], &vec![], &log).expect("run must succeed");
    for v in rep.nodes.iter() {
        let occurrences: usize = rep
            .nodes
            .iter()
            .map(|p| p.children.iter().filter(|c| **c == v.name).count())
            .sum();
        if rep.roots.contains(&v.name) {
            assert_eq!(occurrences, 0, "a root must not be anyone's tree child");
        } else {
            assert_eq!(occurrences, 1, "a non-root must have exactly one tree parent");
        }
    }
}

#[test]
fn crossing_reduction_keeps_layers_and_uncrosses() {
    // roots 0 and 1; 0 -> 3, 1 -> 2: the initial ascending second layer
    // [2, 3] has one crossing, the barycenter pass removes it
    let children: Vec<Vec<usize>> = vec![vec![3], vec![2], vec![], vec![]];
    let lay = flowlog_profiler::layout::layered_order(4, &children);
    assert_eq!(lay.layers, vec![vec![0, 1], vec![2, 3]]);
    let reduced = flowlog_profiler::layout::crossing_reduced_layers(&lay.layers, &children, 4);
    assert_eq!(reduced, vec![vec![0, 1], vec![3, 2]]);
}

#[test]
fn crossing_reduction_is_stable_on_the_diamond() {
    let children: Vec<Vec<usize>> = vec![vec![1, 2], vec![3], vec![3], vec![]];
    let lay = flowlog_profiler::layout::layered_order(4, &children);
    let reduced = flowlog_profiler::layout::crossing_reduced_layers(&lay.layers, &children, 4);
    assert_eq!(reduced, vec![vec![0], vec![1, 2], vec![3]]);
}
