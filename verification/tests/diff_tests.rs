use dnsync::diff::{make_diff_commands, Command};
use dnsync::record::{Ipv4, Record, RecordNode, RecordValue};

fn a_rec(name: &str, a: u8, b: u8, c: u8, d: u8) -> Record {
    Record {
        name: name.to_string(),
        value: RecordValue::A { data: Ipv4 { o1: a, o2: b, o3: c, o4: d } },
    }
}

fn txt_rec(name: &str, data: &str) -> Record {
    Record { name: name.to_string(), value: RecordValue::TXT { data: data.to_string() } }
}

fn cname_rec(name: &str, target: &str) -> Record {
    Record { name: name.to_string(), value: RecordValue::CNAME { data: target.to_string() } }
}

fn node(id: i64, rec: Record) -> RecordNode {
    RecordNode { id, record: rec }
}

#[test]
fn test_idempotent_diff_empty() {
    let actual = vec![
        node(1, a_rec("x", 192, 0, 2, 1)),
        node(2, txt_rec("y", "hello")),
        node(3, cname_rec("z", "example.org")),
    ];
    let desired = vec![
        a_rec("x", 192, 0, 2, 1),
        txt_rec("y", "hello"),
        cname_rec("z", "example.org"),
    ];
    let coms = make_diff_commands(actual, desired);
    assert!(coms.is_empty());
}

#[test]
fn test_pass_ordering_single_patch() {
    let actual = vec![node(7, a_rec("x", 10, 0, 0, 1))];
    let desired = vec![a_rec("x", 10, 0, 0, 2)];
    let coms = make_diff_commands(actual, desired);
    assert_eq!(coms.len(), 1);
    assert_eq!(
        coms[0],
        Command::Patch(node(7, a_rec("x", 10, 0, 0, 1)), a_rec("x", 10, 0, 0, 2))
    );
}

#[test]
fn test_exact_match_untouched() {
    let actual = vec![node(1, a_rec("x", 192, 0, 2, 1))];
    let desired = vec![a_rec("x", 192, 0, 2, 1), a_rec("y", 192, 0, 2, 9)];
    let coms = make_diff_commands(actual, desired);
    // The exactly matching node 1 is claimed by the first desired record and
    // left alone; the second desired record has nothing left to patch.
    assert_eq!(coms, vec![Command::Create(a_rec("y", 192, 0, 2, 9))]);
}

#[test]
fn test_name_kind_patch_before_kind_patch() {
    // Desired "x" finds a same-name A node even though another A node comes
    // first in the actual list.
    let actual = vec![
        node(1, a_rec("other", 10, 0, 0, 1)),
        node(2, a_rec("x", 10, 0, 0, 2)),
    ];
    let desired = vec![a_rec("x", 10, 0, 0, 3)];
    let coms = make_diff_commands(actual, desired);
    assert_eq!(
        coms,
        vec![
            Command::Patch(node(2, a_rec("x", 10, 0, 0, 2)), a_rec("x", 10, 0, 0, 3)),
            Command::Delete(node(1, a_rec("other", 10, 0, 0, 1))),
        ]
    );
}

#[test]
fn test_kind_only_patch_reuses_identity() {
    // A renamed record reuses the existing record's identity instead of a
    // delete and create pair.
    let actual = vec![node(4, a_rec("old", 10, 0, 0, 1))];
    let desired = vec![a_rec("new", 10, 0, 0, 1)];
    let coms = make_diff_commands(actual, desired);
    assert_eq!(
        coms,
        vec![Command::Patch(node(4, a_rec("old", 10, 0, 0, 1)), a_rec("new", 10, 0, 0, 1))]
    );
}

#[test]
fn test_leftover_completeness() {
    // No kind overlap at all: every actual is deleted once, every desired is
    // created once, and patches never appear.
    let actual = vec![node(1, a_rec("a", 1, 2, 3, 4)), node(2, txt_rec("t", "v"))];
    let desired = vec![cname_rec("c", "example.net")];
    let coms = make_diff_commands(actual, desired);
    assert_eq!(
        coms,
        vec![
            Command::Create(cname_rec("c", "example.net")),
            Command::Delete(node(1, a_rec("a", 1, 2, 3, 4))),
            Command::Delete(node(2, txt_rec("t", "v"))),
        ]
    );
}

#[test]
fn test_operation_counts_bounded() {
    let actual = vec![
        node(1, a_rec("a", 1, 1, 1, 1)),
        node(2, a_rec("b", 2, 2, 2, 2)),
        node(3, txt_rec("t", "old")),
    ];
    let desired = vec![a_rec("a", 9, 9, 9, 9), txt_rec("t", "new"), txt_rec("u", "extra")];
    let coms = make_diff_commands(actual, desired);
    let patches = coms.iter().filter(|c| matches!(c, Command::Patch(_, _))).count();
    let creates = coms.iter().filter(|c| matches!(c, Command::Create(_))).count();
    let deletes = coms.iter().filter(|c| matches!(c, Command::Delete(_))).count();
    assert!(patches + deletes <= 3);
    assert!(patches + creates <= 3);
}

#[test]
fn test_first_match_in_list_order_claimed() {
    let actual = vec![
        node(1, a_rec("x", 10, 0, 0, 1)),
        node(2, a_rec("x", 10, 0, 0, 2)),
    ];
    let desired = vec![a_rec("x", 10, 0, 0, 9)];
    let coms = make_diff_commands(actual, desired);
    // The first name-and-kind match in list order is node 1; node 2 is left
    // over and deleted.
    assert_eq!(
        coms,
        vec![
            Command::Patch(node(1, a_rec("x", 10, 0, 0, 1)), a_rec("x", 10, 0, 0, 9)),
            Command::Delete(node(2, a_rec("x", 10, 0, 0, 2))),
        ]
    );
}

#[test]
fn test_srv_value_equality_in_diff() {
    let srv = |name: &str, port: u16| Record {
        name: name.to_string(),
        value: RecordValue::SRV {
            data: "sip.example.org".to_string(),
            priority: 10,
            weight: 5,
            port,
        },
    };
    let actual = vec![node(1, srv("_sip", 5060))];
    let coms = make_diff_commands(actual, vec![srv("_sip", 5060)]);
    assert!(coms.is_empty());
    let actual = vec![node(1, srv("_sip", 5060))];
    let coms = make_diff_commands(actual, vec![srv("_sip", 5061)]);
    assert_eq!(coms, vec![Command::Patch(node(1, srv("_sip", 5060)), srv("_sip", 5061))]);
}
