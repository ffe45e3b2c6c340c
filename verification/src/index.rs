//! The aggregated rule index and the resolver. The index is an immutable
//! snapshot value: a refresh builds a new index (or replaces one list's
//! contribution) and the caller swaps it in whole, so readers never observe
//! a partially merged state. Queries apply allow-over-block precedence.

use vstd::prelude::*;
use crate::parser::{spec_list_rules, parse_list};
use crate::rules::{
    Rule,
    RuleV,
    Decision,
    rule_matches_domain,
    rule_matches_ip,
    better_domain_block,
    better_ip_block,
    matches_domain,
    matches_ip,
    is_better_domain_block,
    is_better_ip_block,
};
use crate::{FilterListMap, FilterListUrl, ListId, RuleId, SourceId, spec_expired, spec_get};

verus! {

/// A list's content as fetched: its identity, when it was fetched, and the
/// raw bytes, with the provenance ids the persistence layer assigned.
#[derive(Debug)]
pub struct FetchedList {
    pub url: FilterListUrl,
    pub fetched_at: u64,
    pub text: Vec<u8>,
    pub list_id: ListId,
    pub source_id: SourceId,
}

/// The aggregated, queryable rule index: one immutable snapshot.
#[derive(Debug)]
pub struct RuleIndex {
    pub rules: Vec<Rule>,
}

impl RuleIndex {
    /// The index's model: the rules in aggregation order.
    pub open spec fn view_rules(self) -> Seq<RuleV> {
        self.rules@.map_values(|r: Rule| r.view())
    }

    /// Every rule is structurally valid.
    pub open spec fn wf(self) -> bool {
        forall|i: int| 0 <= i < self.rules@.len() ==> (#[trigger] self.rules@[i]).wf()
    }

    /// An empty index.
    pub fn new() -> (r: Self)
        ensures
            r.wf(),
            r.view_rules().len() == 0,
    {
        let r = RuleIndex { rules: Vec::new() };
        proof {
            assert(r.view_rules() =~= Seq::<RuleV>::empty());
        }
        r
    }
}

/// Whether a fetched list takes part in aggregation: it is registered and
/// its time-to-live has not elapsed.
pub open spec fn list_active(
    reg: Seq<(FilterListUrl, crate::FilterListRecord)>,
    f: FetchedList,
    now: u64,
) -> bool {
    match spec_get(reg, f.url) {
        Some(rec) => !spec_expired(rec.expires, f.fetched_at, now),
        None => false,
    }
}

/// The rules a fetched list contributes.
pub open spec fn spec_fetched_rules(f: FetchedList) -> Seq<RuleV> {
    spec_list_rules(f.url.list_format, f.text@, f.list_id, f.source_id)
}

/// The rules of all active fetched lists, concatenated in input order;
/// a stale or unregistered list contributes nothing.
pub open spec fn spec_aggregate(
    reg: Seq<(FilterListUrl, crate::FilterListRecord)>,
    fetched: Seq<FetchedList>,
    now: u64,
) -> Seq<RuleV>
    decreases fetched.len(),
{
    if fetched.len() == 0 {
        Seq::empty()
    } else {
        spec_aggregate(reg, fetched.drop_last(), now) + (if list_active(reg, fetched.last(), now) {
            spec_fetched_rules(fetched.last())
        } else {
            Seq::empty()
        })
    }
}

/// Builds a fresh index from the registry and the fetched list contents:
/// each registered, non-expired list is parsed, normalized and merged;
/// expired and unregistered lists contribute no rules.
pub fn aggregate(registry: &FilterListMap, fetched: &Vec<FetchedList>, now: u64) -> (idx: RuleIndex)
    ensures
        idx.wf(),
        idx.view_rules() == spec_aggregate(registry.view_entries(), fetched@, now),
{
    let mut idx = RuleIndex::new();
    let n = fetched.len();
    let mut i: usize = 0;
    proof {
        assert(fetched@.subrange(0, 0) =~= Seq::<FetchedList>::empty());
        assert(idx.view_rules() =~= spec_aggregate(registry.view_entries(), fetched@.subrange(0, 0), now));
    }
    while i < n
        invariant
            n == fetched@.len(),
            idx.wf(),
            idx.view_rules() =~= spec_aggregate(
                registry.view_entries(),
                fetched@.subrange(0, i as int),
                now,
            ),
            i <= n,
        decreases n - i,
    {
        let ghost prev = idx.view_rules();
        let f = &fetched[i];
        proof {
            assert(fetched@.subrange(0, i + 1).drop_last() =~= fetched@.subrange(0, i as int));
            assert(fetched@.subrange(0, i + 1).last() == fetched@[i as int]);
        }
        let active: bool = match registry.get(&f.url) {
            Some(rec) => !rec.is_expired(f.fetched_at, now),
            None => false,
        };
        if active {
            let mut out = parse_list(f.url.list_format, f.text.as_slice(), f.list_id, f.source_id);
            let ghost add = out.rules@.map_values(|r: Rule| r.view());
            idx.rules.append(&mut out.rules);
            proof {
                assert(idx.view_rules() =~= prev + add);
            }
        }
        i += 1;
    }
    proof {
        assert(fetched@.subrange(0, n as int) =~= fetched@);
    }
    idx
}

/// `rules` without the contribution of list `lid`, order kept.
pub open spec fn spec_without_list(rules: Seq<RuleV>, lid: ListId) -> Seq<RuleV>
    decreases rules.len(),
{
    if rules.len() == 0 {
        Seq::empty()
    } else {
        spec_without_list(rules.drop_last(), lid) + (if rules.last().list_id != lid {
            seq![rules.last()]
        } else {
            Seq::empty()
        })
    }
}

impl RuleIndex {
    /// Replaces one list's contributed rules with freshly parsed ones,
    /// without perturbing the rules of unrelated lists: re-aggregation is
    /// re-entrant at list granularity.
    pub fn replace_list_rules(&mut self, list_id: ListId, new_rules: Vec<Rule>)
        requires
            old(self).wf(),
            forall|i: int| 0 <= i < new_rules@.len() ==> (#[trigger] new_rules@[i]).wf(),
        ensures
            final(self).wf(),
            final(self).view_rules() == spec_without_list(old(self).view_rules(), list_id)
                + new_rules@.map_values(|r: Rule| r.view()),
    {
        let ghost orig = self.view_rules();
        let total: usize = self.rules.len();
        let mut kept: Vec<Rule> = Vec::new();
        let mut processed: usize = 0;
        proof {
            assert(orig.subrange(0, 0) =~= Seq::<RuleV>::empty());
            assert(kept@.map_values(|r: Rule| r.view()) =~= spec_without_list(
                orig.subrange(0, 0),
                list_id,
            ));
        }
        while self.rules.len() > 0
            invariant
                total == orig.len(),
                processed + self.rules@.len() == orig.len(),
                self.rules@.map_values(|r: Rule| r.view()) =~= orig.subrange(
                    processed as int,
                    orig.len() as int,
                ),
                kept@.map_values(|r: Rule| r.view()) =~= spec_without_list(
                    orig.subrange(0, processed as int),
                    list_id,
                ),
                forall|i: int| 0 <= i < kept@.len() ==> (#[trigger] kept@[i]).wf(),
                forall|i: int| 0 <= i < self.rules@.len() ==> (#[trigger] self.rules@[i]).wf(),
            decreases self.rules@.len(),
        {
            let ghost prev_kept = kept@.map_values(|r: Rule| r.view());
            let ghost before = self.rules@;
            let ghost rest = self.rules@.map_values(|r: Rule| r.view());
            let r = self.rules.remove(0);
            proof {
                assert(rest[0] == orig[processed as int]);
                assert(r.view() == orig[processed as int]);
                let after = self.rules@.map_values(|rr: Rule| rr.view());
                assert forall|j: int| 0 <= j < after.len() implies #[trigger] after[j] == orig[
                    processed + 1 + j] by {
                    assert(self.rules@[j] == before[j + 1]);
                    assert(rest[j + 1] == orig.subrange(processed as int, orig.len() as int)[j + 1]);
                }
                assert(self.rules@.map_values(|rr: Rule| rr.view()) =~= orig.subrange(
                    processed + 1,
                    orig.len() as int,
                ));
                assert(orig.subrange(0, processed + 1).drop_last() =~= orig.subrange(
                    0,
                    processed as int,
                ));
                assert(orig.subrange(0, processed + 1).last() == orig[processed as int]);
            }
            if r.list_id.0 != list_id.0 {
                kept.push(r);
                proof {
                    assert(kept@.map_values(|rr: Rule| rr.view()) =~= prev_kept.push(
                        orig[processed as int],
                    ));
                }
            } else {
                proof {
                    assert(orig[processed as int].list_id == list_id);
                }
            }
            processed += 1;
        }
        proof {
            assert(orig.subrange(0, processed as int) =~= orig);
        }
        let mut fresh = new_rules;
        let ghost fresh_view = fresh@.map_values(|r: Rule| r.view());
        kept.append(&mut fresh);
        self.rules = kept;
        proof {
            assert(self.view_rules() =~= spec_without_list(orig, list_id) + fresh_view);
        }
    }

    /// Gives the rules consecutive ids starting at `base`, in index order,
    /// as the persistence layer would when the rules are first stored.
    /// Fails (changing nothing) when the ids would not fit.
    pub fn assign_rule_ids(&mut self, base: i32) -> (ok: bool)
        requires
            old(self).wf(),
            base >= 0,
        ensures
            final(self).wf(),
            ok == (old(self).view_rules().len() == 0 || base + old(self).view_rules().len() - 1
                <= i32::MAX),
            !ok ==> final(self).view_rules() == old(self).view_rules(),
            ok ==> final(self).view_rules().len() == old(self).view_rules().len(),
            ok ==> forall|k: int|
                0 <= k < old(self).view_rules().len() ==> (#[trigger] final(self).view_rules()[k])
                    == (RuleV {
                    rule_id: RuleId((base + k) as i32),
                    ..old(self).view_rules()[k]
                }),
    {
        let ghost orig = self.view_rules();
        let len = self.rules.len();
        if len == 0 {
            return true;
        }
        if (len - 1) as u64 > (i32::MAX - base) as u64 {
            return false;
        }
        let mut done: Vec<Rule> = Vec::new();
        let mut k: usize = 0;
        proof {
            assert(self.rules@.map_values(|r: Rule| r.view()) =~= orig.subrange(
                0,
                orig.len() as int,
            ));
        }
        while self.rules.len() > 0
            invariant
                base >= 0,
                k + self.rules@.len() == len,
                len == orig.len(),
                base + len - 1 <= i32::MAX,
                self.rules@.map_values(|r: Rule| r.view()) =~= orig.subrange(
                    k as int,
                    orig.len() as int,
                ),
                done@.len() == k,
                forall|j: int|
                    0 <= j < k ==> (#[trigger] done@[j]).view() == (RuleV {
                        rule_id: RuleId((base + j) as i32),
                        ..orig[j]
                    }),
                forall|j: int| 0 <= j < done@.len() ==> (#[trigger] done@[j]).wf(),
                forall|j: int| 0 <= j < self.rules@.len() ==> (#[trigger] self.rules@[j]).wf(),
            decreases self.rules@.len(),
        {
            let ghost before = self.rules@;
            let ghost rest = self.rules@.map_values(|r: Rule| r.view());
            let r = self.rules.remove(0);
            proof {
                assert(rest[0] == orig[k as int]);
                assert(r.view() == orig[k as int]);
                let after = self.rules@.map_values(|rr: Rule| rr.view());
                assert forall|j: int| 0 <= j < after.len() implies #[trigger] after[j] == orig[k + 1
                    + j] by {
                    assert(self.rules@[j] == before[j + 1]);
                    assert(rest[j + 1] == orig.subrange(k as int, orig.len() as int)[j + 1]);
                }
                assert(self.rules@.map_values(|rr: Rule| rr.view()) =~= orig.subrange(
                    k + 1,
                    orig.len() as int,
                ));
            }
            let id: i32 = base + (k as i32);
            let renamed = Rule {
                pattern: r.pattern,
                allow: r.allow,
                rule_id: RuleId(id),
                source_id: r.source_id,
                list_id: r.list_id,
            };
            done.push(renamed);
            k += 1;
        }
        self.rules = done;
        proof {
            assert forall|j: int| 0 <= j < orig.len() implies (#[trigger] self.view_rules()[j])
                == (RuleV { rule_id: RuleId((base + j) as i32), ..orig[j] }) by {
                assert(self.view_rules()[j] == self.rules@[j].view());
            }
        }
        true
    }
}

/// A list that is stale (or unregistered) contributes no rules: as long as
/// no other fetched list carries the same list id, no rule in the
/// aggregated index bears it, until a successful re-fetch makes the list
/// active again.
pub proof fn lemma_expired_contributes_nothing(
    reg: Seq<(FilterListUrl, crate::FilterListRecord)>,
    fetched: Seq<FetchedList>,
    now: u64,
    i: int,
)
    requires
        0 <= i < fetched.len(),
        !list_active(reg, fetched[i], now),
        forall|j: int|
            0 <= j < fetched.len() && j != i ==> (#[trigger] fetched[j]).list_id
                != fetched[i].list_id,
    ensures
        forall|k: int|
            0 <= k < spec_aggregate(reg, fetched, now).len() ==> (#[trigger] spec_aggregate(
                reg,
                fetched,
                now,
            )[k]).list_id != fetched[i].list_id,
    decreases fetched.len(),
{
    let whole = spec_aggregate(reg, fetched, now);
    let left = spec_aggregate(reg, fetched.drop_last(), now);
    let last = fetched.last();
    if i == fetched.len() - 1 {
        if fetched.len() > 1 {
            lemma_aggregate_tags(reg, fetched.drop_last(), now);
            assert forall|k: int| 0 <= k < whole.len() implies (#[trigger] whole[k]).list_id
                != fetched[i].list_id by {
                assert(whole[k] == left[k]);
                let m = choose|m: int|
                    0 <= m < fetched.drop_last().len() && (#[trigger] fetched.drop_last()[m]).list_id
                        == left[k].list_id;
                assert(fetched[m].list_id != fetched[i].list_id);
            }
        } else {
            assert(whole =~= left);
        }
    } else {
        lemma_expired_contributes_nothing(reg, fetched.drop_last(), now, i);
        if list_active(reg, last, now) {
            lemma_list_rules_tag(last);
            assert forall|k: int| 0 <= k < whole.len() implies (#[trigger] whole[k]).list_id
                != fetched[i].list_id by {
                if k < left.len() {
                    assert(whole[k] == left[k]);
                } else {
                    assert(whole[k] == spec_fetched_rules(last)[k - left.len()]);
                    assert(whole[k].list_id == last.list_id);
                    assert(fetched[fetched.len() - 1].list_id != fetched[i].list_id);
                }
            }
        } else {
            assert forall|k: int| 0 <= k < whole.len() implies (#[trigger] whole[k]).list_id
                != fetched[i].list_id by {
                assert(whole[k] == left[k]);
            }
        }
    }
}

/// Every aggregated rule carries the list id of some fetched list.
proof fn lemma_aggregate_tags(
    reg: Seq<(FilterListUrl, crate::FilterListRecord)>,
    fetched: Seq<FetchedList>,
    now: u64,
)
    ensures
        forall|k: int|
            0 <= k < spec_aggregate(reg, fetched, now).len() ==> exists|m: int|
                0 <= m < fetched.len() && (#[trigger] fetched[m]).list_id == (
                #[trigger] spec_aggregate(reg, fetched, now)[k]).list_id,
    decreases fetched.len(),
{
    let whole = spec_aggregate(reg, fetched, now);
    if fetched.len() > 0 {
        let left = spec_aggregate(reg, fetched.drop_last(), now);
        let last = fetched.last();
        lemma_aggregate_tags(reg, fetched.drop_last(), now);
        if list_active(reg, last, now) {
            lemma_list_rules_tag(last);
        }
        assert forall|k: int| 0 <= k < whole.len() implies exists|m: int|
            0 <= m < fetched.len() && (#[trigger] fetched[m]).list_id == (
        #[trigger] whole[k]).list_id by {
            if k < left.len() {
                assert(whole[k] == left[k]);
                let m = choose|m: int|
                    0 <= m < fetched.drop_last().len() && (#[trigger] fetched.drop_last()[m]).list_id
                        == left[k].list_id;
                assert(fetched[m].list_id == whole[k].list_id);
            } else {
                assert(whole[k] == spec_fetched_rules(last)[k - left.len()]);
                assert(fetched[fetched.len() - 1].list_id == whole[k].list_id);
            }
        }
    }
}

/// The rules a fetched list yields are all tagged with its list id.
proof fn lemma_list_rules_tag(f: FetchedList)
    ensures
        forall|k: int|
            0 <= k < spec_fetched_rules(f).len() ==> (#[trigger] spec_fetched_rules(f)[k]).list_id
                == f.list_id,
{
    lemma_rules_of_lines_tag(
        f.url.list_format,
        crate::text::spec_split(f.text@, 10),
        f.list_id,
        f.source_id,
    );
}

proof fn lemma_rules_of_lines_tag(
    fmt: crate::FilterListType,
    lines: Seq<Seq<u8>>,
    lid: ListId,
    sid: SourceId,
)
    ensures
        forall|k: int|
            0 <= k < crate::parser::spec_rules_of_lines(fmt, lines, lid, sid).len() ==> (
            #[trigger] crate::parser::spec_rules_of_lines(fmt, lines, lid, sid)[k]).list_id == lid,
    decreases lines.len(),
{
    if lines.len() > 0 {
        lemma_rules_of_lines_tag(fmt, lines.drop_last(), lid, sid);
    }
}

/// Index of the winning block rule for a domain query: among matching block
/// rules, the best under `better_domain_block`, earliest on ties.
pub open spec fn spec_best_domain(rules: Seq<RuleV>, d: Seq<u8>) -> Option<int>
    decreases rules.len(),
{
    if rules.len() == 0 {
        None
    } else {
        let rest = spec_best_domain(rules.drop_last(), d);
        let j = rules.len() - 1;
        if rules[j].allow || !rule_matches_domain(rules[j], d) {
            rest
        } else {
            match rest {
                None => Some(j),
                Some(k) => if better_domain_block(rules[j], rules[k]) {
                    Some(j)
                } else {
                    Some(k)
                },
            }
        }
    }
}

/// Index of the winning block rule for an address query: the most specific
/// (longest-prefix) matching network, earliest on ties.
pub open spec fn spec_best_ip(rules: Seq<RuleV>, addr: u128, v6: bool) -> Option<int>
    decreases rules.len(),
{
    if rules.len() == 0 {
        None
    } else {
        let rest = spec_best_ip(rules.drop_last(), addr, v6);
        let j = rules.len() - 1;
        if rules[j].allow || !rule_matches_ip(rules[j], addr, v6) {
            rest
        } else {
            match rest {
                None => Some(j),
                Some(k) => if better_ip_block(rules[j], rules[k]) {
                    Some(j)
                } else {
                    Some(k)
                },
            }
        }
    }
}

proof fn lemma_best_domain_props(rules: Seq<RuleV>, d: Seq<u8>)
    ensures
        match spec_best_domain(rules, d) {
            Some(k) => 0 <= k < rules.len() && !rules[k].allow && rule_matches_domain(rules[k], d),
            None => forall|j: int|
                0 <= j < rules.len() ==> (#[trigger] rules[j]).allow || !rule_matches_domain(
                    rules[j],
                    d,
                ),
        },
    decreases rules.len(),
{
    if rules.len() > 0 {
        lemma_best_domain_props(rules.drop_last(), d);
        if spec_best_domain(rules, d) is None {
            assert forall|j: int| 0 <= j < rules.len() implies (#[trigger] rules[j]).allow
                || !rule_matches_domain(rules[j], d) by {
                if j < rules.len() - 1 {
                    assert(rules.drop_last()[j] == rules[j]);
                }
            }
        }
    }
}

proof fn lemma_best_ip_props(rules: Seq<RuleV>, addr: u128, v6: bool)
    ensures
        match spec_best_ip(rules, addr, v6) {
            Some(k) => 0 <= k < rules.len() && !rules[k].allow && rule_matches_ip(
                rules[k],
                addr,
                v6,
            ),
            None => forall|j: int|
                0 <= j < rules.len() ==> (#[trigger] rules[j]).allow || !rule_matches_ip(
                    rules[j],
                    addr,
                    v6,
                ),
        },
    decreases rules.len(),
{
    if rules.len() > 0 {
        lemma_best_ip_props(rules.drop_last(), addr, v6);
        if spec_best_ip(rules, addr, v6) is None {
            assert forall|j: int| 0 <= j < rules.len() implies (#[trigger] rules[j]).allow
                || !rule_matches_ip(rules[j], addr, v6) by {
                if j < rules.len() - 1 {
                    assert(rules.drop_last()[j] == rules[j]);
                }
            }
        }
    }
}

/// The decision for a domain: any matching allow rule wins over any
/// matching block rule; otherwise the most specific matching block rule
/// blocks; otherwise the domain is unlisted.
pub open spec fn spec_decision_domain(rules: Seq<RuleV>, d: Seq<u8>) -> Decision {
    if exists|i: int|
        0 <= i < rules.len() && (#[trigger] rules[i]).allow && rule_matches_domain(rules[i], d) {
        Decision::Allowed
    } else {
        match spec_best_domain(rules, d) {
            Some(k) => Decision::Blocked(rules[k].rule_id),
            None => Decision::Unlisted,
        }
    }
}

/// The decision for an address, under the same precedence.
pub open spec fn spec_decision_ip(rules: Seq<RuleV>, addr: u128, v6: bool) -> Decision {
    if exists|i: int|
        0 <= i < rules.len() && (#[trigger] rules[i]).allow && rule_matches_ip(rules[i], addr, v6) {
        Decision::Allowed
    } else {
        match spec_best_ip(rules, addr, v6) {
            Some(k) => Decision::Blocked(rules[k].rule_id),
            None => Decision::Unlisted,
        }
    }
}

impl RuleIndex {
    /// Answers "is this domain blocked?" under allow-over-block precedence.
    pub fn is_blocked_domain(&self, d: &[u8]) -> (r: Decision)
        ensures
            r == spec_decision_domain(self.view_rules(), d@),
    {
        let ghost rv = self.view_rules();
        let n = self.rules.len();
        let mut allow_found = false;
        let mut best: Option<usize> = None;
        let mut i: usize = 0;
        proof {
            assert(rv.subrange(0, 0) =~= Seq::<RuleV>::empty());
        }
        while i < n
            invariant
                n == self.rules@.len(),
                rv == self.view_rules(),
                i <= n,
                allow_found == exists|j: int|
                    0 <= j < i && (#[trigger] rv[j]).allow && rule_matches_domain(rv[j], d@),
                match best {
                    Some(b) => spec_best_domain(rv.subrange(0, i as int), d@) == Some(b as int)
                        && b < i,
                    None => spec_best_domain(rv.subrange(0, i as int), d@) is None,
                },
            decreases n - i,
        {
            proof {
                assert(rv.subrange(0, i + 1).drop_last() =~= rv.subrange(0, i as int));
                assert(rv.subrange(0, i + 1).last() == rv[i as int]);
                assert(rv[i as int] == self.rules@[i as int].view());
            }
            let m = matches_domain(&self.rules[i], d);
            if m && self.rules[i].allow {
                allow_found = true;
                proof {
                    assert(rv[i as int].allow && rule_matches_domain(rv[i as int], d@));
                }
            } else if m {
                best = match best {
                    None => Some(i),
                    Some(b) => {
                        proof {
                            assert(rv[b as int] == self.rules@[b as int].view());
                        }
                        if is_better_domain_block(&self.rules[i], &self.rules[b]) {
                            Some(i)
                        } else {
                            Some(b)
                        }
                    },
                };
            }
            i += 1;
        }
        proof {
            assert(rv.subrange(0, n as int) =~= rv);
        }
        if allow_found {
            Decision::Allowed
        } else {
            match best {
                Some(b) => {
                    proof {
                        assert(rv[b as int] == self.rules@[b as int].view());
                    }
                    Decision::Blocked(self.rules[b].rule_id)
                },
                None => Decision::Unlisted,
            }
        }
    }

    /// Answers "is this address blocked?" under the same precedence; the
    /// address arrives in plain network form (see `IpNet`).
    pub fn is_blocked_ip(&self, addr: u128, v6: bool) -> (r: Decision)
        requires
            self.wf(),
            !v6 ==> addr < 0x100000000,
        ensures
            r == spec_decision_ip(self.view_rules(), addr, v6),
    {
        let ghost rv = self.view_rules();
        let n = self.rules.len();
        let mut allow_found = false;
        let mut best: Option<usize> = None;
        let mut i: usize = 0;
        proof {
            assert(rv.subrange(0, 0) =~= Seq::<RuleV>::empty());
        }
        while i < n
            invariant
                n == self.rules@.len(),
                self.wf(),
                !v6 ==> addr < 0x100000000,
                rv == self.view_rules(),
                i <= n,
                allow_found == exists|j: int|
                    0 <= j < i && (#[trigger] rv[j]).allow && rule_matches_ip(rv[j], addr, v6),
                match best {
                    Some(b) => spec_best_ip(rv.subrange(0, i as int), addr, v6) == Some(b as int)
                        && b < i,
                    None => spec_best_ip(rv.subrange(0, i as int), addr, v6) is None,
                },
            decreases n - i,
        {
            proof {
                assert(rv.subrange(0, i + 1).drop_last() =~= rv.subrange(0, i as int));
                assert(rv.subrange(0, i + 1).last() == rv[i as int]);
                assert(rv[i as int] == self.rules@[i as int].view());
            }
            let m = matches_ip(&self.rules[i], addr, v6);
            if m && self.rules[i].allow {
                allow_found = true;
                proof {
                    assert(rv[i as int].allow && rule_matches_ip(rv[i as int], addr, v6));
                }
            } else if m {
                best = match best {
                    None => Some(i),
                    Some(b) => {
                        proof {
                            assert(rv[b as int] == self.rules@[b as int].view());
                        }
                        if is_better_ip_block(&self.rules[i], &self.rules[b]) {
                            Some(i)
                        } else {
                            Some(b)
                        }
                    },
                };
            }
            i += 1;
        }
        proof {
            assert(rv.subrange(0, n as int) =~= rv);
        }
        if allow_found {
            Decision::Allowed
        } else {
            match best {
                Some(b) => {
                    proof {
                        assert(rv[b as int] == self.rules@[b as int].view());
                    }
                    Decision::Blocked(self.rules[b].rule_id)
                },
                None => Decision::Unlisted,
            }
        }
    }
}

/// The list ids of every rule bearing `q`, in index order.
pub open spec fn spec_lists_referencing(rules: Seq<RuleV>, q: RuleId) -> Seq<ListId>
    decreases rules.len(),
{
    if rules.len() == 0 {
        Seq::empty()
    } else {
        spec_lists_referencing(rules.drop_last(), q) + (if rules.last().rule_id == q {
            seq![rules.last().list_id]
        } else {
            Seq::empty()
        })
    }
}

impl RuleIndex {
    /// Provenance query: which lists reference rule `q`.
    pub fn lists_referencing(&self, q: RuleId) -> (out: Vec<ListId>)
        ensures
            out@ == spec_lists_referencing(self.view_rules(), q),
    {
        let ghost rv = self.view_rules();
        let n = self.rules.len();
        let mut out: Vec<ListId> = Vec::new();
        let mut i: usize = 0;
        proof {
            assert(rv.subrange(0, 0) =~= Seq::<RuleV>::empty());
            assert(out@ =~= spec_lists_referencing(rv.subrange(0, 0), q));
        }
        while i < n
            invariant
                n == self.rules@.len(),
                rv == self.view_rules(),
                i <= n,
                out@ =~= spec_lists_referencing(rv.subrange(0, i as int), q),
            decreases n - i,
        {
            proof {
                assert(rv.subrange(0, i + 1).drop_last() =~= rv.subrange(0, i as int));
                assert(rv.subrange(0, i + 1).last() == rv[i as int]);
                assert(rv[i as int] == self.rules@[i as int].view());
            }
            if self.rules[i].rule_id.0 == q.0 {
                out.push(self.rules[i].list_id);
            }
            i += 1;
        }
        proof {
            assert(rv.subrange(0, n as int) =~= rv);
        }
        out
    }
}

/// Rejection of malformed query input: surfaced to the caller as a typed
/// failure, never defaulted to an empty or negative result.
#[derive(Debug, Copy, Clone, PartialEq, Eq, Structural)]
pub enum ValidationError {
    InvalidDomain,
    InvalidIp,
}

impl RuleIndex {
    /// Validates a domain query and answers it; malformed domain syntax is
    /// a typed failure, distinguishable from a true Unlisted.
    pub fn query_domain(&self, d: &[u8]) -> (r: Result<Decision, ValidationError>)
        ensures
            crate::domain::valid_domain(d@) ==> r == Ok::<Decision, ValidationError>(
                spec_decision_domain(self.view_rules(), d@),
            ),
            !crate::domain::valid_domain(d@) ==> r == Err::<Decision, ValidationError>(
                ValidationError::InvalidDomain,
            ),
    {
        if crate::domain::is_valid_domain(d) {
            Ok(self.is_blocked_domain(d))
        } else {
            Err(ValidationError::InvalidDomain)
        }
    }

    /// Validates a textual IPv4 query and answers it; malformed address
    /// syntax is a typed failure.
    pub fn query_ip_text(&self, s: &[u8]) -> (r: Result<Decision, ValidationError>)
        requires
            self.wf(),
        ensures
            match crate::ip::spec_parse_ipv4(s@) {
                Some(a) => r == Ok::<Decision, ValidationError>(
                    spec_decision_ip(self.view_rules(), a as u128, false),
                ),
                None => r == Err::<Decision, ValidationError>(ValidationError::InvalidIp),
            },
    {
        match crate::ip::parse_ipv4(s) {
            Some(a) => Ok(self.is_blocked_ip(a as u128, false)),
            None => Err(ValidationError::InvalidIp),
        }
    }
}

/// Allow-over-block precedence: when a domain matches both an allow rule
/// and a block rule — from the same list or different ones — the decision
/// is Allowed.
pub proof fn lemma_allow_overrides_block_domain(rules: Seq<RuleV>, d: Seq<u8>, i: int, j: int)
    requires
        0 <= i < rules.len(),
        rules[i].allow,
        rule_matches_domain(rules[i], d),
        0 <= j < rules.len(),
        !rules[j].allow,
        rule_matches_domain(rules[j], d),
    ensures
        spec_decision_domain(rules, d) == Decision::Allowed,
{
}

/// Allow-over-block precedence for address queries.
pub proof fn lemma_allow_overrides_block_ip(rules: Seq<RuleV>, addr: u128, v6: bool, i: int, j: int)
    requires
        0 <= i < rules.len(),
        rules[i].allow,
        rule_matches_ip(rules[i], addr, v6),
        0 <= j < rules.len(),
        !rules[j].allow,
        rule_matches_ip(rules[j], addr, v6),
    ensures
        spec_decision_ip(rules, addr, v6) == Decision::Allowed,
{
}

/// A domain that matches no rule at all is Unlisted, never Blocked.
pub proof fn lemma_unmatched_is_unlisted(rules: Seq<RuleV>, d: Seq<u8>)
    requires
        forall|i: int| 0 <= i < rules.len() ==> !rule_matches_domain(#[trigger] rules[i], d),
    ensures
        spec_decision_domain(rules, d) == Decision::Unlisted,
{
    lemma_best_domain_props(rules, d);
    if spec_best_domain(rules, d) is Some {
        let k = spec_best_domain(rules, d)->0;
        assert(!rule_matches_domain(rules[k], d));
    }
}

/// An address that lies in no rule's network is Unlisted, never Blocked.
pub proof fn lemma_unmatched_ip_is_unlisted(rules: Seq<RuleV>, addr: u128, v6: bool)
    requires
        forall|i: int| 0 <= i < rules.len() ==> !rule_matches_ip(#[trigger] rules[i], addr, v6),
    ensures
        spec_decision_ip(rules, addr, v6) == Decision::Unlisted,
{
    lemma_best_ip_props(rules, addr, v6);
    if spec_best_ip(rules, addr, v6) is Some {
        let k = spec_best_ip(rules, addr, v6)->0;
        assert(!rule_matches_ip(rules[k], addr, v6));
    }
}

} // verus!
