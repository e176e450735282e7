use netscan::address::IpAddr;
use netscan::probe::{identify, listing_lines, lookup_name, report, Node};

fn node(addr: u32, alive: bool, name: Option<&str>) -> Option<Node> {
    identify(IpAddr::new(addr).to_string(), alive, name.map(|s| s.to_string()))
}

#[test]
fn name_from_lookup_report() {
    let out = "1.0.0.10.in-addr.arpa\tname = host.lan.\n\nAuthoritative answers\n";
    assert_eq!(lookup_name(true, out), Some("host.lan".to_string()));
}

#[test]
fn first_marker_and_terminator_win() {
    let out = "x name = a.b.\n y name = c.\n";
    assert_eq!(lookup_name(true, out), Some("a.b".to_string()));
}

#[test]
fn no_name_without_marker_or_terminator() {
    assert_eq!(lookup_name(true, "server can't find 1.0.0.10: NXDOMAIN\n"), None);
    assert_eq!(lookup_name(true, "name = host.lan"), None);
    assert_eq!(lookup_name(false, "name = host.lan.\n"), None);
    assert_eq!(lookup_name(true, ""), None);
}

#[test]
fn live_host_without_name_is_bare_address() {
    let n = node(167772161, true, None).unwrap();
    assert_eq!(n.line(), "10.0.0.1");
}

#[test]
fn live_host_with_name_is_padded() {
    let n = node(167772161, true, Some("router")).unwrap();
    assert_eq!(n.line(), "10.0.0.1        router");
    let n = node(0xc0a8640a, true, Some("nas")).unwrap();
    assert_eq!(n.line(), "192.168.100.10  nas");
    let n = node(0xc0a8640a, true, Some("")).unwrap();
    assert_eq!(n.line(), "192.168.100.10  ");
}

#[test]
fn dead_host_gives_nothing() {
    assert!(node(1, false, Some("x")).is_none());
}

#[test]
fn only_live_host_is_reported() {
    let results = vec![node(167772161, false, None), node(167772162, true, None)];
    assert_eq!(report(&results), vec!["10.0.0.2".to_string()]);
}

#[test]
fn submission_order_is_kept() {
    let results = vec![node(167772162, true, None), node(167772161, true, Some("a"))];
    assert_eq!(
        report(&results),
        vec!["10.0.0.2".to_string(), "10.0.0.1        a".to_string()]
    );
    assert!(report(&vec![]).is_empty());
}

#[test]
fn listing_keeps_nonempty_lines() {
    assert_eq!(
        listing_lines("192.168.1.7/24\n\n10.0.0.2/8\n"),
        vec!["192.168.1.7/24".to_string(), "10.0.0.2/8".to_string()]
    );
    assert_eq!(listing_lines("a/1"), vec!["a/1".to_string()]);
    assert!(listing_lines("").is_empty());
    assert!(listing_lines("\n\n").is_empty());
}
