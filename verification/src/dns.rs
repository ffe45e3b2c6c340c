//! Reverse lookup over DNS resolution records: which domains resolve to a
//! given IP. Records associate a domain (id and name) with an IP network;
//! queries match by network equality, so host addresses are stored and
//! queried in full-prefix network form.

use vstd::prelude::*;
use vstd::slice::slice_to_vec;
use crate::ip::IpNet;
use crate::DomainId;

verus! {

/// One observed DNS resolution, append-only.
#[derive(Debug)]
pub struct DnsRecord {
    pub domain_id: DomainId,
    pub domain: Vec<u8>,
    pub ip: IpNet,
}

/// Strictly ascending by domain id: deterministic order, one entry per id.
pub open spec fn dns_sorted(s: Seq<(DomainId, Vec<u8>)>) -> bool {
    forall|p: int, q: int| 0 <= p < q < s.len() ==> (#[trigger] s[p]).0.0 < (#[trigger] s[q]).0.0
}

/// Some record resolves (`id`, `name`) to `ip`.
pub open spec fn resolves_to(records: Seq<DnsRecord>, ip: IpNet, id: DomainId, name: Seq<u8>) -> bool {
    exists|k: int|
        0 <= k < records.len() && (#[trigger] records[k]).ip == ip && records[k].domain_id == id
            && records[k].domain@ == name
}

/// The result set reports domain id `id`.
pub open spec fn reports_id(out: Seq<(DomainId, Vec<u8>)>, id: DomainId) -> bool {
    exists|m: int| 0 <= m < out.len() && (#[trigger] out[m]).0.0 == id.0
}

/// Inserts a domain into an id-sorted result set, keeping it sorted and
/// never duplicating an id.
fn insert_domain(out: &mut Vec<(DomainId, Vec<u8>)>, id: DomainId, name: Vec<u8>)
    requires
        dns_sorted(old(out)@),
    ensures
        dns_sorted(final(out)@),
        forall|j: int| 0 <= j < old(out)@.len() ==> final(out)@.contains(#[trigger] old(out)@[j]),
        forall|m: int|
            0 <= m < final(out)@.len() ==> old(out)@.contains(#[trigger] final(out)@[m]) || ((
            final(out)@[m]).0 == id && (final(out)@[m]).1@ == name@),
        reports_id(final(out)@, id),
{
    let len = out.len();
    let mut p: usize = 0;
    while p < len && out[p].0.0 < id.0
        invariant
            len == out@.len(),
            p <= len,
            forall|j: int| 0 <= j < p ==> (#[trigger] out@[j]).0.0 < id.0,
        decreases len - p,
    {
        p += 1;
    }
    if p < len && out[p].0.0 == id.0 {
        proof {
            assert(out@[p as int].0.0 == id.0);
            assert forall|j: int| 0 <= j < out@.len() implies out@.contains(#[trigger] out@[j]) by {
            }
        }
        return;
    }
    let ghost prev = out@;
    out.insert(p, (id, name));
    proof {
        let cur = out@;
        assert(cur =~= prev.insert(p as int, (id, name)));
        assert forall|x: int, q: int| 0 <= x < q < cur.len() implies (#[trigger] cur[x]).0.0 < (
        #[trigger] cur[q]).0.0 by {
            if x < p && q > p {
                assert(cur[x] == prev[x] && cur[q] == prev[q - 1]);
                if q - 1 > p {
                    assert(prev[p as int].0.0 < prev[q - 1].0.0);
                }
            } else if q == p {
                assert(cur[x] == prev[x]);
            } else if x == p {
                assert(cur[q] == prev[q - 1]);
                if q - 1 > p {
                    assert(prev[p as int].0.0 < prev[q - 1].0.0);
                }
            } else if q < p {
                assert(cur[x] == prev[x] && cur[q] == prev[q]);
            } else {
                assert(cur[x] == prev[x - 1] && cur[q] == prev[q - 1]);
            }
        }
        assert forall|j: int| 0 <= j < prev.len() implies cur.contains(#[trigger] prev[j]) by {
            if j < p {
                assert(cur[j] == prev[j]);
            } else {
                assert(cur[j + 1] == prev[j]);
            }
        }
        assert forall|m: int| 0 <= m < cur.len() implies prev.contains(#[trigger] cur[m]) || ((
        cur[m]).0 == id && (cur[m]).1@ == name@) by {
            if m < p {
                assert(cur[m] == prev[m]);
            } else if m > p {
                assert(cur[m] == prev[m - 1]);
            }
        }
        assert(cur[p as int].0.0 == id.0);
    }
}

/// The domains that resolve to `ip`: one entry per domain id, ascending by
/// id. An IP with no records yields the empty set — never an error.
pub fn domains_resolving_to(records: &Vec<DnsRecord>, ip: IpNet) -> (out: Vec<(DomainId, Vec<u8>)>)
    ensures
        dns_sorted(out@),
        forall|m: int|
            0 <= m < out@.len() ==> resolves_to(
                records@,
                ip,
                (#[trigger] out@[m]).0,
                out@[m].1@,
            ),
        forall|k: int|
            0 <= k < records@.len() && (#[trigger] records@[k]).ip == ip ==> reports_id(
                out@,
                records@[k].domain_id,
            ),
        (forall|k: int| 0 <= k < records@.len() ==> (#[trigger] records@[k]).ip != ip) ==> out@.len()
            == 0,
{
    let n = records.len();
    let mut out: Vec<(DomainId, Vec<u8>)> = Vec::new();
    let mut k: usize = 0;
    while k < n
        invariant
            n == records@.len(),
            k <= n,
            dns_sorted(out@),
            forall|m: int|
                0 <= m < out@.len() ==> resolves_to(
                    records@,
                    ip,
                    (#[trigger] out@[m]).0,
                    out@[m].1@,
                ),
            forall|x: int|
                0 <= x < k && (#[trigger] records@[x]).ip == ip ==> reports_id(
                    out@,
                    records@[x].domain_id,
                ),
        decreases n - k,
    {
        let rec = &records[k];
        if rec.ip == ip {
            let ghost before = out@;
            let name = slice_to_vec(rec.domain.as_slice());
            insert_domain(&mut out, rec.domain_id, name);
            proof {
                assert forall|m: int| 0 <= m < out@.len() implies resolves_to(
                    records@,
                    ip,
                    (#[trigger] out@[m]).0,
                    out@[m].1@,
                ) by {
                    if before.contains(out@[m]) {
                        let mm = choose|mm: int| 0 <= mm < before.len() && before[mm] == out@[m];
                        assert(resolves_to(records@, ip, before[mm].0, before[mm].1@));
                    } else {
                        assert(out@[m].0 == rec.domain_id && out@[m].1@ == rec.domain@);
                        assert(records@[k as int].ip == ip && records@[k as int].domain_id
                            == out@[m].0 && records@[k as int].domain@ == out@[m].1@);
                    }
                }
                assert forall|x: int|
                    0 <= x < k + 1 && (#[trigger] records@[x]).ip == ip implies reports_id(
                    out@,
                    records@[x].domain_id,
                ) by {
                    if x < k {
                        assert(reports_id(before, records@[x].domain_id));
                        let m = choose|m: int|
                            0 <= m < before.len() && (#[trigger] before[m]).0.0
                                == records@[x].domain_id.0;
                        assert(out@.contains(before[m]));
                        let m2 = choose|m2: int| 0 <= m2 < out@.len() && out@[m2] == before[m];
                        assert(out@[m2].0.0 == records@[x].domain_id.0);
                    }
                }
            }
        }
        k += 1;
    }
    proof {
        if out@.len() > 0 {
            assert(resolves_to(records@, ip, out@[0].0, out@[0].1@));
            let x = choose|x: int|
                0 <= x < records@.len() && (#[trigger] records@[x]).ip == ip
                    && records@[x].domain_id == out@[0].0 && records@[x].domain@ == out@[0].1@;
            assert(records@[x].ip == ip);
        }
    }
    out
}

} // verus!
