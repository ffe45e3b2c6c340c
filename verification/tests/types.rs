use filterlist::{FilterListType, FilterListRecord, FilterListUrl, FilterListMap};

fn all_types() -> Vec<FilterListType> {
    vec![
        FilterListType::Adblock,
        FilterListType::DomainBlocklist,
        FilterListType::DomainAllowlist,
        FilterListType::IPBlocklist,
        FilterListType::IPAllowlist,
        FilterListType::IPNetBlocklist,
        FilterListType::DenyHosts,
        FilterListType::RegexAllowlist,
        FilterListType::RegexBlocklist,
        FilterListType::Hostfile,
        FilterListType::DNSRPZ,
        FilterListType::PrivacyBadger,
    ]
}

#[test]
fn type_name_round_trip() {
    for t in all_types() {
        assert_eq!(FilterListType::from_str(t.as_str()), Ok(t));
    }
}

#[test]
fn type_names_are_canonical() {
    assert_eq!(FilterListType::Adblock.as_str(), "Adblock");
    assert_eq!(FilterListType::DNSRPZ.as_str(), "DNSRPZ");
    assert_eq!(FilterListType::PrivacyBadger.as_str(), "PrivacyBadger");
}

#[test]
fn unknown_type_is_error() {
    let r = FilterListType::from_str("NotAFormat");
    assert!(r.is_err());
    assert_eq!(r.unwrap_err().message().as_str(), "Invalid FilterListType");
    assert!(FilterListType::from_str("adblock").is_err());
    assert!(FilterListType::from_str("").is_err());
}

fn rec(name: &str, expires: u64) -> FilterListRecord {
    FilterListRecord {
        name: name.to_string(),
        author: String::new(),
        license: String::new(),
        expires,
    }
}

#[test]
fn map_upsert_replaces_duplicate_key() {
    let mut m = FilterListMap::new();
    let u1 = FilterListUrl::new(b"https://a.example/list".to_vec(), FilterListType::DomainBlocklist);
    let u2 = FilterListUrl::new(b"https://a.example/list".to_vec(), FilterListType::DomainBlocklist);
    m.upsert(u1, rec("first", 10));
    m.upsert(u2, rec("second", 20));
    assert_eq!(m.len(), 1);
    assert_eq!(m.pairs()[0].1.name.as_str(), "second");
}

#[test]
fn map_same_url_different_format_is_two_entries() {
    let mut m = FilterListMap::new();
    let u1 = FilterListUrl::new(b"https://a.example/list".to_vec(), FilterListType::DomainBlocklist);
    let u2 = FilterListUrl::new(b"https://a.example/list".to_vec(), FilterListType::Adblock);
    m.upsert(u1, rec("x", 0));
    m.upsert(u2, rec("y", 0));
    assert_eq!(m.len(), 2);
}

#[test]
fn map_iterates_in_key_order() {
    let mut m = FilterListMap::new();
    m.upsert(
        FilterListUrl::new(b"https://b.example/x".to_vec(), FilterListType::Hostfile),
        rec("b", 0),
    );
    m.upsert(
        FilterListUrl::new(b"https://a.example/x".to_vec(), FilterListType::Hostfile),
        rec("a", 0),
    );
    m.upsert(
        FilterListUrl::new(b"https://a.example/x".to_vec(), FilterListType::Adblock),
        rec("a-adblock", 0),
    );
    let names: Vec<String> = m.pairs().iter().map(|p| p.1.name.clone()).collect();
    assert_eq!(names, vec!["a-adblock".to_string(), "a".to_string(), "b".to_string()]);
}

#[test]
fn map_remove() {
    let mut m = FilterListMap::new();
    let mk = || FilterListUrl::new(b"https://a.example/x".to_vec(), FilterListType::Hostfile);
    m.upsert(mk(), rec("a", 0));
    assert!(m.remove(&mk()));
    assert_eq!(m.len(), 0);
    assert!(!m.remove(&mk()));
}

#[test]
fn map_get() {
    let mut m = FilterListMap::new();
    let mk = || FilterListUrl::new(b"https://a.example/x".to_vec(), FilterListType::Hostfile);
    assert!(m.get(&mk()).is_none());
    m.upsert(mk(), rec("a", 7));
    assert_eq!(m.get(&mk()).unwrap().expires, 7);
}

#[test]
fn record_expiry() {
    let r = rec("x", 10);
    assert!(!r.is_expired(0, 10));
    assert!(!r.is_expired(0, 5));
    assert!(r.is_expired(0, 11));
    assert!(!r.is_expired(100, 50));
    assert!(r.is_expired(100, 111));
}

#[test]
fn parse_url_normalizes() {
    let u = FilterListUrl::parse("https://Example.COM/list.txt", FilterListType::Adblock);
    assert!(u.is_some());
    let u = u.unwrap();
    assert_eq!(u.url, b"https://example.com/list.txt".to_vec());
    assert!(FilterListUrl::parse("not a url", FilterListType::Adblock).is_none());
}
