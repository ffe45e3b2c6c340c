use filterlist::parser::{parse_list, ParseErrorKind};
use filterlist::rules::RulePattern;
use filterlist::ip::{parse_ipv4, parse_ipv4_net};
use filterlist::{FilterListType, ListId, SourceId};

fn run(fmt: FilterListType, text: &str) -> filterlist::parser::ParseOutcome {
    parse_list(fmt, text.as_bytes(), ListId(1), SourceId(1))
}

#[test]
fn domain_list_skips_comments_and_blanks() {
    let out = run(
        FilterListType::DomainBlocklist,
        "# a comment\n\n  good.example.com  \n\nother.example.org\n",
    );
    assert_eq!(out.rules.len(), 2);
    assert_eq!(out.diagnostics.len(), 0);
    match &out.rules[0].pattern {
        RulePattern::DomainExact(d) => assert_eq!(d, &b"good.example.com".to_vec()),
        _ => panic!("expected exact domain"),
    }
    assert!(!out.rules[0].allow);
}

#[test]
fn allowlist_formats_emit_allow_rules() {
    let out = run(FilterListType::DomainAllowlist, "ok.example.com\n");
    assert_eq!(out.rules.len(), 1);
    assert!(out.rules[0].allow);
}

#[test]
fn bad_line_reports_and_keeps_rest() {
    let out = run(
        FilterListType::DomainBlocklist,
        "good.example.com\nnot_a_domain!\nalso.example.com\n",
    );
    assert_eq!(out.rules.len(), 2);
    assert_eq!(out.diagnostics.len(), 1);
    assert_eq!(out.diagnostics[0].line, 2);
    assert_eq!(out.diagnostics[0].kind, ParseErrorKind::InvalidDomain);
}

#[test]
fn one_bad_line_in_ten_thousand() {
    let mut text = String::new();
    for i in 0..10000 {
        if i == 5000 {
            text.push_str("..broken..\n");
        } else {
            text.push_str(&format!("host{}.example.com\n", i));
        }
    }
    let out = run(FilterListType::DomainBlocklist, &text);
    assert_eq!(out.rules.len(), 9999);
    assert_eq!(out.diagnostics.len(), 1);
    assert_eq!(out.diagnostics[0].line, 5001);
}

#[test]
fn adblock_rules() {
    let out = run(
        FilterListType::Adblock,
        "! comment\n||ads.example.com^\n@@||good.example.com^\n##cosmetic\nrandom junk\n",
    );
    assert_eq!(out.rules.len(), 2);
    assert_eq!(out.diagnostics.len(), 0);
    match &out.rules[0].pattern {
        RulePattern::DomainSuffix(d) => assert_eq!(d, &b"ads.example.com".to_vec()),
        _ => panic!("expected suffix"),
    }
    assert!(!out.rules[0].allow);
    assert!(out.rules[1].allow);
}

#[test]
fn privacy_badger_emits_suffix_block() {
    let out = run(FilterListType::PrivacyBadger, "tracker.example.net\n");
    assert_eq!(out.rules.len(), 1);
    assert!(matches!(out.rules[0].pattern, RulePattern::DomainSuffix(_)));
    assert!(!out.rules[0].allow);
}

#[test]
fn ip_list_parses_and_rejects() {
    let out = run(FilterListType::IPBlocklist, "1.2.3.4\n999.1.1.1\n10.0.0.1\n1.2.3\n1.2.3.4.5\n");
    assert_eq!(out.rules.len(), 2);
    assert_eq!(out.diagnostics.len(), 3);
    assert_eq!(out.diagnostics[0].kind, ParseErrorKind::InvalidIp);
    match &out.rules[0].pattern {
        RulePattern::IpNetwork(n) => {
            assert_eq!(n.addr, 0x01020304);
            assert_eq!(n.prefix, 32);
            assert!(!n.v6);
        },
        _ => panic!("expected network"),
    }
}

#[test]
fn ipnet_list_validates_masks() {
    let out = run(FilterListType::IPNetBlocklist, "10.0.0.0/8\n10.0.0.0/33\n10.0.0.0\n");
    assert_eq!(out.rules.len(), 1);
    assert_eq!(out.diagnostics.len(), 2);
    assert_eq!(out.diagnostics[0].kind, ParseErrorKind::InvalidNet);
    match &out.rules[0].pattern {
        RulePattern::IpNetwork(n) => {
            assert_eq!(n.addr, 0x0A000000);
            assert_eq!(n.prefix, 8);
        },
        _ => panic!("expected network"),
    }
}

#[test]
fn regex_list_compiles_eagerly() {
    let out = run(FilterListType::RegexBlocklist, "^ads[0-9]+\\.\n(unclosed\n");
    assert_eq!(out.rules.len(), 1);
    assert_eq!(out.diagnostics.len(), 1);
    assert_eq!(out.diagnostics[0].line, 2);
    assert_eq!(out.diagnostics[0].kind, ParseErrorKind::InvalidRegex);
}

#[test]
fn rpz_policy_triggers() {
    let out = run(
        FilterListType::DNSRPZ,
        "bad.example.com. CNAME .\ngood.example.com. CNAME rpz-passthru.\nx.example.com. A 1.2.3.4\n",
    );
    assert_eq!(out.rules.len(), 2);
    match &out.rules[0].pattern {
        RulePattern::DomainExact(d) => assert_eq!(d, &b"bad.example.com".to_vec()),
        _ => panic!("expected exact"),
    }
    assert!(!out.rules[0].allow);
    assert!(out.rules[1].allow);
}

#[test]
fn ipv4_parsing_edge_cases() {
    assert_eq!(parse_ipv4(b"0.0.0.0"), Some(0));
    assert_eq!(parse_ipv4(b"255.255.255.255"), Some(u32::MAX));
    assert_eq!(parse_ipv4(b"256.0.0.0"), None);
    assert_eq!(parse_ipv4(b"1.2.3.4."), None);
    assert_eq!(parse_ipv4(b".1.2.3.4"), None);
    assert_eq!(parse_ipv4(b"1..2.3"), None);
    assert_eq!(parse_ipv4(b""), None);
    assert_eq!(parse_ipv4(b"a.b.c.d"), None);
}

#[test]
fn ipv4_net_parsing_edge_cases() {
    let n = parse_ipv4_net(b"192.168.1.0/24").unwrap();
    assert_eq!(n.addr, 0xC0A80100);
    assert_eq!(n.prefix, 24);
    assert!(parse_ipv4_net(b"192.168.1.0/").is_none());
    assert!(parse_ipv4_net(b"192.168.1.0").is_none());
    assert!(parse_ipv4_net(b"192.168.1.0/24/").is_none());
    assert!(parse_ipv4_net(b"1.2.3.4/0").is_some());
}
