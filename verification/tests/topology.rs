use flowlog_profiler::addr::{addr_le_exec, Addr};
use flowlog_profiler::log::{parse_addr, AddrParseError};
use flowlog_profiler::diagnostics::error_message;
use flowlog_profiler::log::{LogIndex, LogRow};
use flowlog_profiler::ops::{OperatorRefSpec, OpsError, OpsSpec, RawNode, Rule, Stratum};

fn raw(id: u32, label: &str, children: &[u32], addrs: &[&[u32]]) -> RawNode {
    RawNode {
        id,
        label: label.to_string(),
        operators: addrs
            .iter()
            .map(|a| OperatorRefSpec::Explicit { addr: a.to_vec() })
            .collect(),
        children: children.to_vec(),
    }
}

fn spec_of(input: Vec<RawNode>, strata: Vec<Stratum>, inspect: Vec<RawNode>) -> OpsSpec {
    OpsSpec { input, strata, inspect }
}

fn stratum(enter: Vec<RawNode>, rules: Vec<Rule>, runtime: Vec<RawNode>) -> Stratum {
    Stratum {
        label: "s".to_string(),
        enter,
        rules,
        runtime,
        leave: vec![],
    }
}

#[test]
fn validate_flattens_buckets_and_derives_roots() {
    let spec = spec_of(
        vec![raw(1, "one", &[2], &[&[0, 1]])],
        vec![stratum(
            vec![raw(2, "two", &[3], &[])],
            vec![Rule {
                rule: "r".to_string(),
                stages: vec![raw(3, "three", &[], &[&[0, 2]])],
            }],
            vec![raw(4, "four", &[], &[])],
        )],
        vec![raw(5, "five", &[], &[])],
    );
    let v = spec.validate_and_build().expect("valid topology");
    let ids: Vec<u32> = v.nodes.iter().map(|n| n.id).collect();
    assert_eq!(ids, vec![1, 2, 3, 4, 5]);
    // 2 and 3 have parents; 1, 4 and 5 do not
    assert_eq!(v.roots, vec![1, 4, 5]);
    assert_eq!(v.nodes[0].label, "one");
    assert_eq!(v.nodes[0].children, vec![2]);
    assert_eq!(v.nodes[0].operators.len(), 1);
    assert_eq!(v.nodes[0].operators[0].0, vec![0, 1]);
}

#[test]
fn duplicate_id_is_fatal() {
    let spec = spec_of(
        vec![raw(1, "one", &[], &[]), raw(1, "again", &[], &[])],
        vec![],
        vec![],
    );
    match spec.validate_and_build() {
        Err(OpsError::DuplicateId { id }) => assert_eq!(id, 1),
        _ => panic!("duplicate id not rejected"),
    }
}

#[test]
fn empty_topology_is_fatal() {
    let spec = spec_of(vec![], vec![], vec![]);
    assert!(matches!(spec.validate_and_build(), Err(OpsError::EmptySpec)));
}

#[test]
fn dangling_child_is_fatal() {
    let spec = spec_of(vec![raw(1, "one", &[9], &[])], vec![], vec![]);
    match spec.validate_and_build() {
        Err(OpsError::DanglingChild { node, child }) => {
            assert_eq!(node, 1);
            assert_eq!(child, 9);
        }
        _ => panic!("dangling child not rejected"),
    }
}

#[test]
fn operator_sets_are_deduplicated_and_sorted() {
    let spec = spec_of(
        vec![raw(1, "one", &[], &[&[2, 1], &[0, 5], &[2, 1]])],
        vec![],
        vec![],
    );
    let v = spec.validate_and_build().unwrap();
    let addrs: Vec<Vec<u32>> = v.nodes[0].operators.iter().map(|a| a.0.clone()).collect();
    assert_eq!(addrs, vec![vec![0, 5], vec![2, 1]]);
}

#[test]
fn log_index_rejects_duplicate_addresses() {
    let mut log = LogIndex::new();
    let r1 = LogRow {
        addr: Addr::new(vec![0, 3]),
        activations: 1,
        total_active_us: 10,
        op_name: "a".to_string(),
    };
    let r2 = LogRow {
        addr: Addr::new(vec![0, 3]),
        activations: 2,
        total_active_us: 20,
        op_name: "b".to_string(),
    };
    assert!(log.insert_row(r1));
    assert!(!log.insert_row(r2));
    assert_eq!(log.len(), 1);
}

#[test]
fn log_index_lookup_finds_exact_address() {
    let mut log = LogIndex::new();
    let r1 = LogRow {
        addr: Addr::new(vec![0, 3]),
        activations: 5,
        total_active_us: 50,
        op_name: "x".to_string(),
    };
    assert!(log.insert_row(r1));
    let hit = log.get(&Addr::new(vec![0, 3])).expect("row present");
    assert_eq!(hit.activations, 5);
    assert!(log.get(&Addr::new(vec![0])).is_none());
    assert!(log.get(&Addr::new(vec![0, 3, 1])).is_none());
}

#[test]
fn error_message_carries_prefix() {
    assert_eq!(error_message("boom"), "ERROR boom");
}

#[test]
fn address_order_is_lexicographic() {
    let a = Addr::new(vec![0, 8, 10]);
    let b = Addr::new(vec![0, 9]);
    let c = Addr::new(vec![0, 8]);
    assert!(addr_le_exec(&a, &b));
    assert!(!addr_le_exec(&b, &a));
    assert!(addr_le_exec(&c, &a));
    assert!(addr_le_exec(&a, &a));
}

#[test]
fn parse_addr_accepts_bracketed_lists() {
    let ok = |s: &str| parse_addr(&s.as_bytes().to_vec()).expect("must parse").0;
    assert_eq!(ok("[0, 8, 10]"), vec![0, 8, 10]);
    assert_eq!(ok("  [ 1 ,2 ]  "), vec![1, 2]);
    assert_eq!(ok("[]"), Vec::<u32>::new());
    assert_eq!(ok("[  ]"), Vec::<u32>::new());
    assert_eq!(ok("[1,,2]"), vec![1, 2]);
    assert_eq!(ok("[+7]"), vec![7]);
    assert_eq!(ok("[4294967295]"), vec![4294967295]);
}

#[test]
fn parse_addr_rejects_malformed_literals() {
    let err = |s: &str| parse_addr(&s.as_bytes().to_vec()).expect_err("must fail");
    assert_eq!(err("0, 1"), AddrParseError::NotBracketed);
    assert_eq!(err(""), AddrParseError::NotBracketed);
    assert_eq!(err("[0, 1"), AddrParseError::NotBracketed);
    assert_eq!(err("[a]"), AddrParseError::BadElement);
    assert_eq!(err("[4294967296]"), AddrParseError::BadElement);
    assert_eq!(err("[1 2]"), AddrParseError::BadElement);
    assert_eq!(err("[+]"), AddrParseError::BadElement);
}
