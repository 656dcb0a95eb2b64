use dnsync::parse::{parse_ipv4, parse_ipv6, parse_u16};
use dnsync::record::{Ipv4, Ipv6, RecordValue, ZoneValue};
use dnsync::resolve::{instantiate, PreRecord, PreRecordValue, Precursor, Resolvable, TargetKind};
use dnsync::store::{replace, VarStore};

fn store(pairs: &[(&str, &str)]) -> VarStore {
    let mut s = VarStore::new();
    for (k, v) in pairs {
        s.add(k.to_string(), v.to_string());
    }
    s
}

fn chars(s: &str) -> Vec<char> {
    s.chars().collect()
}

#[test]
fn test_replace_substitutes_nested_variables() {
    let vars = store(&[("host", "www.${domain}"), ("domain", "example.org")]);
    let out = replace("${host}".to_string(), &vars);
    assert_eq!(out, "www.example.org");
}

#[test]
fn test_replace_leaves_unknown_placeholder() {
    let vars = store(&[("a", "1")]);
    let out = replace("${a}.${missing}".to_string(), &vars);
    assert_eq!(out, "1.${missing}");
}

#[test]
fn test_substitution_cycle_terminates_with_residual() {
    // A cyclic store must not hang: after the five passes the residual
    // placeholder text is simply left in place.
    let vars = store(&[("a", "${b}"), ("b", "${a}")]);
    let out = replace("${a}".to_string(), &vars);
    assert_eq!(out, "${a}");
    // A typed field then fails to parse on the residual ...
    let r = Precursor::new("${a}".to_string()).resolve_v4(&vars);
    let e = r.unwrap_err();
    assert_eq!(e.text, "${a}");
    assert_eq!(e.target, TargetKind::V4);
    // ... while a string field accepts it as-is.
    let t = Precursor::new("${a}".to_string()).resolve_text(&vars);
    assert_eq!(t, "${a}");
}

#[test]
fn test_parse_ipv4_exact() {
    assert_eq!(
        parse_ipv4(&chars("198.51.100.7")),
        Some(Ipv4 { o1: 198, o2: 51, o3: 100, o4: 7 })
    );
    assert_eq!(parse_ipv4(&chars("0.0.0.0")), Some(Ipv4 { o1: 0, o2: 0, o3: 0, o4: 0 }));
    assert_eq!(
        parse_ipv4(&chars("255.255.255.255")),
        Some(Ipv4 { o1: 255, o2: 255, o3: 255, o4: 255 })
    );
    assert_eq!(parse_ipv4(&chars("256.0.0.1")), None);
    assert_eq!(parse_ipv4(&chars("01.2.3.4")), None);
    assert_eq!(parse_ipv4(&chars("1.2.3")), None);
    assert_eq!(parse_ipv4(&chars("1.2.3.4.5")), None);
    assert_eq!(parse_ipv4(&chars("")), None);
    assert_eq!(parse_ipv4(&chars("a.b.c.d")), None);
}

#[test]
fn test_parse_ipv6_exact() {
    assert_eq!(parse_ipv6(&chars("::1")), Some(Ipv6 { bits: 1 }));
    assert_eq!(parse_ipv6(&chars("::")), Some(Ipv6 { bits: 0 }));
    assert_eq!(
        parse_ipv6(&chars("2001:db8::8:800:200c:417a")),
        Some(Ipv6 { bits: 0x2001_0db8_0000_0000_0008_0800_200c_417a })
    );
    assert_eq!(
        parse_ipv6(&chars("1:2:3:4:5:6:7:8")),
        Some(Ipv6 { bits: 0x0001_0002_0003_0004_0005_0006_0007_0008 })
    );
    assert_eq!(parse_ipv6(&chars("fe80::")), Some(Ipv6 { bits: 0xfe80 << 112 }));
    assert_eq!(parse_ipv6(&chars("1::2::3")), None);
    assert_eq!(parse_ipv6(&chars("1:2:3:4:5:6:7")), None);
    assert_eq!(parse_ipv6(&chars("1:2:3:4:5:6:7:8:9")), None);
    assert_eq!(parse_ipv6(&chars("12345::")), None);
    assert_eq!(parse_ipv6(&chars("")), None);
}

#[test]
fn test_parse_u16_exact() {
    assert_eq!(parse_u16(&chars("0")), Some(0));
    assert_eq!(parse_u16(&chars("007")), Some(7));
    assert_eq!(parse_u16(&chars("65535")), Some(65535));
    assert_eq!(parse_u16(&chars("65536")), None);
    assert_eq!(parse_u16(&chars("")), None);
    assert_eq!(parse_u16(&chars("1x")), None);
}

#[test]
fn test_resolve_typed_values() {
    let vars = store(&[("ip", "192.0.2.55"), ("p", "8080")]);
    let v = PreRecordValue::A { addr: Precursor::new("${ip}".to_string()) };
    assert_eq!(
        v.resolve(&vars).unwrap(),
        RecordValue::A { data: Ipv4 { o1: 192, o2: 0, o3: 2, o4: 55 } }
    );
    let v = PreRecordValue::SRV {
        domain: Precursor::new("sip.example.org".to_string()),
        priority: Precursor::new("10".to_string()),
        weight: Precursor::new("5".to_string()),
        port: Precursor::new("${p}".to_string()),
    };
    assert_eq!(
        v.resolve(&vars).unwrap(),
        RecordValue::SRV {
            data: "sip.example.org".to_string(),
            priority: 10,
            weight: 5,
            port: 8080,
        }
    );
}

#[test]
fn test_resolve_error_targets() {
    let vars = store(&[]);
    let e = PreRecordValue::A { addr: Precursor::new("not-an-ip".to_string()) }
        .resolve(&vars)
        .unwrap_err();
    assert_eq!(e.target, TargetKind::V4);
    assert_eq!(e.text, "not-an-ip");
    let e = PreRecordValue::AAAA { addr: Precursor::new("xyz".to_string()) }
        .resolve(&vars)
        .unwrap_err();
    assert_eq!(e.target, TargetKind::V6);
    let e = PreRecordValue::SRV {
        domain: Precursor::new("d".to_string()),
        priority: Precursor::new("high".to_string()),
        weight: Precursor::new("1".to_string()),
        port: Precursor::new("1".to_string()),
    }
    .resolve(&vars)
    .unwrap_err();
    assert_eq!(e.target, TargetKind::Port);
    assert_eq!(e.text, "high");
}

#[test]
fn test_zone_record_extraction() {
    let vars = store(&[("zone_ip", "198.51.100.7")]);
    let prerecords = vec![
        PreRecord {
            name: Precursor::new("".to_string()),
            value: PreRecordValue::A { addr: Precursor::new("${zone_ip}".to_string()) },
        },
        PreRecord {
            name: Precursor::new("www".to_string()),
            value: PreRecordValue::CNAME { domain: Precursor::new("example.org".to_string()) },
        },
    ];
    let (records, zone) = instantiate(prerecords, &vars).unwrap();
    assert_eq!(records.len(), 1);
    assert_eq!(records[0].name, "www");
    assert_eq!(
        zone,
        Some(ZoneValue {
            ipv4address: Some(Ipv4 { o1: 198, o2: 51, o3: 100, o4: 7 }),
            ipv6prefix: None,
        })
    );
}

#[test]
fn test_no_zone_record_means_no_zone_config() {
    let vars = store(&[]);
    let prerecords = vec![PreRecord {
        name: Precursor::new("www".to_string()),
        value: PreRecordValue::A { addr: Precursor::new("192.0.2.1".to_string()) },
    }];
    let (records, zone) = instantiate(prerecords, &vars).unwrap();
    assert_eq!(records.len(), 1);
    assert_eq!(zone, None);
}

#[test]
fn test_multiple_zone_records_last_wins() {
    let vars = store(&[]);
    let zone_a = |addr: &str| PreRecord {
        name: Precursor::new("".to_string()),
        value: PreRecordValue::A { addr: Precursor::new(addr.to_string()) },
    };
    let (records, zone) = instantiate(vec![zone_a("192.0.2.1"), zone_a("192.0.2.2")], &vars)
        .unwrap();
    assert!(records.is_empty());
    assert_eq!(
        zone,
        Some(ZoneValue {
            ipv4address: Some(Ipv4 { o1: 192, o2: 0, o3: 2, o4: 2 }),
            ipv6prefix: None,
        })
    );
}

#[test]
fn test_instantiate_fails_on_bad_record() {
    let vars = store(&[]);
    let prerecords = vec![
        PreRecord {
            name: Precursor::new("ok".to_string()),
            value: PreRecordValue::TXT { data: Precursor::new("fine".to_string()) },
        },
        PreRecord {
            name: Precursor::new("bad".to_string()),
            value: PreRecordValue::A { addr: Precursor::new("${nope}".to_string()) },
        },
    ];
    let e = instantiate(prerecords, &vars).unwrap_err();
    assert_eq!(e.target, TargetKind::V4);
    assert_eq!(e.text, "${nope}");
}

#[test]
fn test_store_update() {
    let mut vars = store(&[("a", "1")]);
    assert!(vars.update("a".to_string(), "2".to_string()).is_ok());
    assert_eq!(replace("${a}".to_string(), &vars), "2");
    let e = vars.update("missing".to_string(), "x".to_string()).unwrap_err();
    assert_eq!(e.key, "missing");
    // A failed update leaves the store as it was.
    assert_eq!(replace("${a}".to_string(), &vars), "2");
}
