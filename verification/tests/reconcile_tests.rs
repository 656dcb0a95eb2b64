use dnsync::diff::Command;
use dnsync::reconcile::{Reconciler, RoundPlan};
use dnsync::record::{Ipv4, Record, RecordNode, RecordValue, ZoneValue};

fn a_rec(name: &str, last: u8) -> Record {
    Record {
        name: name.to_string(),
        value: RecordValue::A { data: Ipv4 { o1: 192, o2: 0, o3: 2, o4: last } },
    }
}

fn zone(last: Option<u8>) -> ZoneValue {
    ZoneValue {
        ipv4address: last.map(|l| Ipv4 { o1: 192, o2: 0, o3: 2, o4: l }),
        ipv6prefix: None,
    }
}

#[test]
fn test_converged_on_equal_state() {
    let mut rec = Reconciler::new(vec![a_rec("x", 1)], None, 3);
    let actual = vec![RecordNode { id: 1, record: a_rec("x", 1) }];
    match rec.plan_round(&zone(None), actual) {
        RoundPlan::Converged => {},
        _ => panic!("expected convergence"),
    }
}

#[test]
fn test_retry_exhaustion_after_budget() {
    // With a budget of two rounds and a provider that never converges, the
    // loop executes rounds zero and one, then fails before a third fetch.
    let mut rec = Reconciler::new(vec![a_rec("x", 2)], None, 2);
    let stale = || vec![RecordNode { id: 1, record: a_rec("x", 1) }];
    match rec.plan_round(&zone(None), stale()) {
        RoundPlan::Execute(coms) => assert_eq!(coms.len(), 1),
        _ => panic!("round 0 should execute"),
    }
    match rec.plan_round(&zone(None), stale()) {
        RoundPlan::Execute(coms) => assert_eq!(coms.len(), 1),
        _ => panic!("round 1 should execute"),
    }
    match rec.plan_round(&zone(None), stale()) {
        RoundPlan::Exhausted => {},
        _ => panic!("round 2 should exhaust the budget"),
    }
}

#[test]
fn test_round_proceeds_regardless_of_failures() {
    // The planner takes only the freshly fetched state: a round whose
    // operations failed is simply planned again, not aborted.
    let mut rec = Reconciler::new(vec![a_rec("x", 2), a_rec("y", 3), a_rec("z", 4)], None, 5);
    let stale = || {
        vec![
            RecordNode { id: 1, record: a_rec("x", 1) },
            RecordNode { id: 2, record: a_rec("y", 1) },
            RecordNode { id: 3, record: a_rec("z", 1) },
        ]
    };
    match rec.plan_round(&zone(None), stale()) {
        RoundPlan::Execute(coms) => assert_eq!(coms.len(), 3),
        _ => panic!("round 0 should execute three operations"),
    }
    // All three failed: the same actual state comes back, and the loop
    // plans the same three operations for the next round.
    match rec.plan_round(&zone(None), stale()) {
        RoundPlan::Execute(coms) => assert_eq!(coms.len(), 3),
        _ => panic!("round 1 should execute again"),
    }
}

#[test]
fn test_zone_update_appended_when_different() {
    let mut rec = Reconciler::new(vec![], Some(zone(Some(9))), 3);
    match rec.plan_round(&zone(Some(1)), vec![]) {
        RoundPlan::Execute(coms) => {
            assert_eq!(coms, vec![Command::Zone(zone(Some(9)))]);
        },
        _ => panic!("zone difference should produce a zone update"),
    }
}

#[test]
fn test_no_zone_update_when_equal() {
    let mut rec = Reconciler::new(vec![], Some(zone(Some(1))), 3);
    match rec.plan_round(&zone(Some(1)), vec![]) {
        RoundPlan::Converged => {},
        _ => panic!("equal zone configuration needs no update"),
    }
}

#[test]
fn test_no_desired_zone_never_updates() {
    let mut rec = Reconciler::new(vec![], None, 3);
    match rec.plan_round(&zone(Some(1)), vec![]) {
        RoundPlan::Converged => {},
        _ => panic!("absent desired zone proposes no update"),
    }
}
