use filterlist::index::{RuleIndex, FetchedList, ValidationError, aggregate};
use filterlist::ip::IpNet;
use filterlist::rules::{Rule, RulePattern, Decision};
use filterlist::{
    FilterListMap,
    FilterListRecord,
    FilterListType,
    FilterListUrl,
    ListId,
    RuleId,
    SourceId,
};

fn rule(pattern: RulePattern, allow: bool, id: i32, list: i32) -> Rule {
    Rule {
        pattern,
        allow,
        rule_id: RuleId(id),
        source_id: SourceId(list),
        list_id: ListId(list),
    }
}

fn exact(d: &str) -> RulePattern {
    RulePattern::DomainExact(d.as_bytes().to_vec())
}

fn suffix(d: &str) -> RulePattern {
    RulePattern::DomainSuffix(d.as_bytes().to_vec())
}

fn net(addr: u32, prefix: u8) -> RulePattern {
    RulePattern::IpNetwork(IpNet { addr: addr as u128, prefix, v6: false })
}

#[test]
fn allow_wins_over_block_across_lists() {
    let idx = RuleIndex {
        rules: vec![
            rule(exact("tracker.example.com"), false, 1, 1),
            rule(exact("tracker.example.com"), true, 2, 2),
        ],
    };
    assert_eq!(idx.is_blocked_domain(b"tracker.example.com"), Decision::Allowed);
}

#[test]
fn exact_allow_overrides_suffix_block() {
    let idx = RuleIndex {
        rules: vec![
            rule(suffix("example.com"), false, 1, 1),
            rule(exact("sub.example.com"), true, 2, 2),
        ],
    };
    assert_eq!(idx.is_blocked_domain(b"sub.example.com"), Decision::Allowed);
    assert_eq!(idx.is_blocked_domain(b"other.example.com"), Decision::Blocked(RuleId(1)));
    assert_eq!(idx.is_blocked_domain(b"example.com"), Decision::Blocked(RuleId(1)));
    assert_eq!(idx.is_blocked_domain(b"unrelated.org"), Decision::Unlisted);
}

#[test]
fn suffix_does_not_match_partial_label() {
    let idx = RuleIndex { rules: vec![rule(suffix("example.com"), false, 1, 1)] };
    assert_eq!(idx.is_blocked_domain(b"notexample.com"), Decision::Unlisted);
    assert_eq!(idx.is_blocked_domain(b"a.example.com"), Decision::Blocked(RuleId(1)));
}

#[test]
fn exact_block_beats_suffix_block() {
    let idx = RuleIndex {
        rules: vec![
            rule(suffix("example.com"), false, 1, 1),
            rule(exact("example.com"), false, 2, 1),
        ],
    };
    assert_eq!(idx.is_blocked_domain(b"example.com"), Decision::Blocked(RuleId(2)));
}

#[test]
fn longer_suffix_beats_shorter() {
    let idx = RuleIndex {
        rules: vec![
            rule(suffix("example.com"), false, 1, 1),
            rule(suffix("ads.example.com"), false, 2, 1),
        ],
    };
    assert_eq!(idx.is_blocked_domain(b"x.ads.example.com"), Decision::Blocked(RuleId(2)));
}

#[test]
fn regex_rules_match_domains() {
    let idx = RuleIndex {
        rules: vec![rule(RulePattern::Regex(b"^ads[0-9]+\\.".to_vec()), false, 1, 1)],
    };
    assert_eq!(idx.is_blocked_domain(b"ads123.example.com"), Decision::Blocked(RuleId(1)));
    assert_eq!(idx.is_blocked_domain(b"ads.example.com"), Decision::Unlisted);
}

#[test]
fn regex_evaluated_after_exact() {
    let idx = RuleIndex {
        rules: vec![
            rule(RulePattern::Regex(b"ads".to_vec()), false, 1, 1),
            rule(exact("ads.example.com"), false, 2, 1),
        ],
    };
    assert_eq!(idx.is_blocked_domain(b"ads.example.com"), Decision::Blocked(RuleId(2)));
}

#[test]
fn longest_prefix_and_allow_precedence() {
    let idx = RuleIndex {
        rules: vec![
            rule(net(0x0A000000, 8), false, 1, 1),
            rule(net(0x0A010000, 16), true, 2, 2),
        ],
    };
    // 10.1.2.3 is inside both; the allow rule wins.
    assert_eq!(idx.is_blocked_ip(0x0A010203, false), Decision::Allowed);
    // 10.2.3.4 only matches the /8 block.
    assert_eq!(idx.is_blocked_ip(0x0A020304, false), Decision::Blocked(RuleId(1)));
    // 11.0.0.1 matches nothing.
    assert_eq!(idx.is_blocked_ip(0x0B000001, false), Decision::Unlisted);
}

#[test]
fn most_specific_block_network_reported() {
    let idx = RuleIndex {
        rules: vec![
            rule(net(0x0A000000, 8), false, 1, 1),
            rule(net(0x0A010000, 16), false, 2, 1),
        ],
    };
    assert_eq!(idx.is_blocked_ip(0x0A010203, false), Decision::Blocked(RuleId(2)));
    assert_eq!(idx.is_blocked_ip(0x0A020304, false), Decision::Blocked(RuleId(1)));
}

#[test]
fn ipv6_addresses_do_not_match_v4_networks() {
    let idx = RuleIndex { rules: vec![rule(net(0x0A000000, 8), false, 1, 1)] };
    assert_eq!(idx.is_blocked_ip(0x0A0102030000000000000000000000, true), Decision::Unlisted);
}

#[test]
fn lists_referencing_rule() {
    let idx = RuleIndex {
        rules: vec![
            rule(exact("a.example.com"), false, 7, 1),
            rule(exact("b.example.com"), false, 8, 2),
            rule(exact("c.example.com"), false, 7, 3),
        ],
    };
    assert_eq!(idx.lists_referencing(RuleId(7)), vec![ListId(1), ListId(3)]);
    assert_eq!(idx.lists_referencing(RuleId(9)), Vec::<ListId>::new());
}

fn record(expires: u64) -> FilterListRecord {
    FilterListRecord {
        name: String::new(),
        author: String::new(),
        license: String::new(),
        expires,
    }
}

fn fetched(url: &FilterListUrl, fetched_at: u64, text: &str, list: i32) -> FetchedList {
    FetchedList {
        url: FilterListUrl::new(url.url.clone(), url.list_format),
        fetched_at,
        text: text.as_bytes().to_vec(),
        list_id: ListId(list),
        source_id: SourceId(list),
    }
}

#[test]
fn expired_list_contributes_nothing() {
    let url = FilterListUrl::new(b"https://a.example/l".to_vec(), FilterListType::DomainBlocklist);
    let mut reg = FilterListMap::new();
    reg.upsert(FilterListUrl::new(url.url.clone(), url.list_format), record(60));
    let lists = vec![fetched(&url, 0, "bad.example.com\n", 1)];
    // Fresh enough: the rule is there.
    let idx = aggregate(&reg, &lists, 50);
    assert_eq!(idx.rules.len(), 1);
    // TTL elapsed: the list contributes nothing until re-fetched.
    let idx = aggregate(&reg, &lists, 61);
    assert_eq!(idx.rules.len(), 0);
    // Re-fetched now: active again.
    let lists = vec![fetched(&url, 61, "bad.example.com\n", 1)];
    let idx = aggregate(&reg, &lists, 61);
    assert_eq!(idx.rules.len(), 1);
}

#[test]
fn unregistered_list_contributes_nothing() {
    let url = FilterListUrl::new(b"https://a.example/l".to_vec(), FilterListType::DomainBlocklist);
    let reg = FilterListMap::new();
    let lists = vec![fetched(&url, 0, "bad.example.com\n", 1)];
    let idx = aggregate(&reg, &lists, 0);
    assert_eq!(idx.rules.len(), 0);
}

#[test]
fn aggregate_merges_active_lists_with_provenance() {
    let u1 = FilterListUrl::new(b"https://a.example/l".to_vec(), FilterListType::DomainBlocklist);
    let u2 = FilterListUrl::new(b"https://b.example/l".to_vec(), FilterListType::DomainAllowlist);
    let mut reg = FilterListMap::new();
    reg.upsert(FilterListUrl::new(u1.url.clone(), u1.list_format), record(100));
    reg.upsert(FilterListUrl::new(u2.url.clone(), u2.list_format), record(100));
    let lists = vec![
        fetched(&u1, 0, "tracker.example.com\n", 1),
        fetched(&u2, 0, "tracker.example.com\n", 2),
    ];
    let idx = aggregate(&reg, &lists, 10);
    assert_eq!(idx.rules.len(), 2);
    assert_eq!(idx.rules[0].list_id, ListId(1));
    assert_eq!(idx.rules[1].list_id, ListId(2));
    // The allow rule from the second list overrides the block from the first.
    assert_eq!(idx.is_blocked_domain(b"tracker.example.com"), Decision::Allowed);
}

#[test]
fn replace_list_rules_keeps_unrelated_lists() {
    let mut idx = RuleIndex {
        rules: vec![
            rule(exact("a.example.com"), false, 1, 1),
            rule(exact("b.example.com"), false, 2, 2),
            rule(exact("c.example.com"), false, 3, 1),
        ],
    };
    idx.replace_list_rules(ListId(1), vec![rule(exact("d.example.com"), false, 4, 1)]);
    assert_eq!(idx.rules.len(), 2);
    assert_eq!(idx.rules[0].rule_id, RuleId(2));
    assert_eq!(idx.rules[1].rule_id, RuleId(4));
    assert_eq!(idx.is_blocked_domain(b"a.example.com"), Decision::Unlisted);
    assert_eq!(idx.is_blocked_domain(b"b.example.com"), Decision::Blocked(RuleId(2)));
}

#[test]
fn assign_rule_ids_sequential() {
    let mut idx = RuleIndex {
        rules: vec![
            rule(exact("a.example.com"), false, 0, 1),
            rule(exact("b.example.com"), false, 0, 1),
        ],
    };
    assert!(idx.assign_rule_ids(10));
    assert_eq!(idx.rules[0].rule_id, RuleId(10));
    assert_eq!(idx.rules[1].rule_id, RuleId(11));
}

#[test]
fn query_validation_errors() {
    let idx = RuleIndex { rules: vec![rule(exact("a.example.com"), false, 1, 1)] };
    assert_eq!(idx.query_domain(b"a.example.com"), Ok(Decision::Blocked(RuleId(1))));
    assert_eq!(idx.query_domain(b"not a domain"), Err(ValidationError::InvalidDomain));
    assert_eq!(idx.query_domain(b""), Err(ValidationError::InvalidDomain));
    let idx = RuleIndex { rules: vec![rule(net(0x0A000000, 8), false, 1, 1)] };
    assert_eq!(idx.query_ip_text(b"10.1.2.3"), Ok(Decision::Blocked(RuleId(1))));
    assert_eq!(idx.query_ip_text(b"11.1.2.3"), Ok(Decision::Unlisted));
    assert_eq!(idx.query_ip_text(b"10.1.2"), Err(ValidationError::InvalidIp));
}

#[test]
fn assign_rule_ids_refuses_overflow() {
    let mut idx = RuleIndex {
        rules: vec![
            rule(exact("a.example.com"), false, 0, 1),
            rule(exact("b.example.com"), false, 0, 1),
        ],
    };
    assert!(!idx.assign_rule_ids(i32::MAX));
    assert_eq!(idx.rules[0].rule_id, RuleId(0));
    assert!(idx.assign_rule_ids(i32::MAX - 1));
    assert_eq!(idx.rules[1].rule_id, RuleId(i32::MAX));
}
