use filterlist::dns::{DnsRecord, domains_resolving_to};
use filterlist::ip::{IpNet, contains_addr, p2_u128};
use filterlist::DomainId;

fn v4_host(addr: u32) -> IpNet {
    IpNet { addr: addr as u128, prefix: 32, v6: false }
}

fn record(id: i64, name: &str, ip: IpNet) -> DnsRecord {
    DnsRecord { domain_id: DomainId(id), domain: name.as_bytes().to_vec(), ip }
}

#[test]
fn no_records_is_empty_not_error() {
    let out = domains_resolving_to(&Vec::new(), v4_host(0x01020304));
    assert_eq!(out.len(), 0);
    let records = vec![record(1, "a.example.com", v4_host(0x05060708))];
    let out = domains_resolving_to(&records, v4_host(0x01020304));
    assert_eq!(out.len(), 0);
}

#[test]
fn results_sorted_by_domain_id_and_deduplicated() {
    let ip = v4_host(0x01020304);
    let records = vec![
        record(5, "e.example.com", ip),
        record(2, "b.example.com", ip),
        record(9, "z.example.com", v4_host(0x0A0B0C0D)),
        record(2, "b.example.com", ip),
        record(1, "a.example.com", ip),
    ];
    let out = domains_resolving_to(&records, ip);
    let ids: Vec<i64> = out.iter().map(|p| p.0 .0).collect();
    assert_eq!(ids, vec![1, 2, 5]);
    assert_eq!(out[0].1, b"a.example.com".to_vec());
}

#[test]
fn lookup_matches_by_network_equality() {
    let stored = IpNet { addr: 0x0A000000, prefix: 8, v6: false };
    let records = vec![record(1, "a.example.com", stored)];
    // Query with the same network form matches...
    assert_eq!(domains_resolving_to(&records, stored).len(), 1);
    // ...a host inside the network does not: equality, not containment.
    assert_eq!(domains_resolving_to(&records, v4_host(0x0A000001)).len(), 0);
}

#[test]
fn containment_checks() {
    let net8 = IpNet { addr: 0x0A000000, prefix: 8, v6: false };
    assert!(contains_addr(&net8, 0x0A010203, false));
    assert!(!contains_addr(&net8, 0x0B010203, false));
    assert!(!contains_addr(&net8, 0x0A010203, true));
    let all = IpNet { addr: 0, prefix: 0, v6: false };
    assert!(contains_addr(&all, 0xFFFFFFFF, false));
    let v6net = IpNet { addr: 0x20010DB8 << 96, prefix: 32, v6: true };
    assert!(contains_addr(&v6net, (0x20010DB8 << 96) | 1, true));
    assert!(!contains_addr(&v6net, 0x20010DB9 << 96, true));
}

#[test]
fn power_of_two() {
    assert_eq!(p2_u128(0), 1);
    assert_eq!(p2_u128(8), 256);
    assert_eq!(p2_u128(127), 1u128 << 127);
}
