//! The canonical rule representation every list format is normalized onto:
//! a target pattern (exact domain, domain suffix, IP network, or regex), a
//! polarity (allow or block), and provenance (rule, source and list ids).

use vstd::prelude::*;
use crate::domain::suffix_match;
use crate::domain::is_suffix_match;
use crate::ip::{IpNet, net_contains, contains_addr};
use crate::text::bytes_eq;
use crate::{RuleId, SourceId, ListId};

verus! {

/// Whether a regex pattern compiles; a function of the pattern bytes alone.
pub uninterp spec fn regex_valid_of(pat: Seq<u8>) -> bool;

/// Whether a compiled regex pattern matches a text; a function of the
/// pattern and text bytes alone.
pub uninterp spec fn regex_match_of(pat: Seq<u8>, text: Seq<u8>) -> bool;

/// Relies on `regex::bytes::Regex::new`: whether a pattern compiles is
/// determined by the pattern bytes alone. A pattern that is not UTF-8 is
/// not a valid pattern.
#[verifier::external_body]
pub(crate) fn regex_is_valid(pat: &[u8]) -> (r: bool)
    ensures
        r == regex_valid_of(pat@),
{
    match core::str::from_utf8(pat) {
        Ok(s) => regex::bytes::Regex::new(s).is_ok(),
        Err(_) => false,
    }
}

/// Relies on `regex::bytes::Regex::is_match`: the result is determined by
/// the pattern and text bytes alone. A pattern that does not compile
/// matches nothing.
#[verifier::external_body]
pub(crate) fn regex_matches(pat: &[u8], text: &[u8]) -> (r: bool)
    ensures
        r == (regex_valid_of(pat@) && regex_match_of(pat@, text@)),
{
    match core::str::from_utf8(pat) {
        Ok(s) => match regex::bytes::Regex::new(s) {
            Ok(re) => re.is_match(text),
            Err(_) => false,
        },
        Err(_) => false,
    }
}

/// A rule's target predicate.
#[derive(Debug)]
pub enum RulePattern {
    /// Matches one domain exactly.
    DomainExact(Vec<u8>),
    /// Matches a domain and all its subdomains.
    DomainSuffix(Vec<u8>),
    /// Matches every address inside a network; a host address carries a
    /// full-length prefix.
    IpNetwork(IpNet),
    /// Matches domains by a regex pattern; evaluated after all other kinds.
    Regex(Vec<u8>),
}

/// The mathematical model of a pattern.
pub enum PatternV {
    DomainExact(Seq<u8>),
    DomainSuffix(Seq<u8>),
    IpNetwork(IpNet),
    Regex(Seq<u8>),
}

impl RulePattern {
    /// The pattern's model.
    pub open spec fn view(self) -> PatternV {
        match self {
            RulePattern::DomainExact(d) => PatternV::DomainExact(d@),
            RulePattern::DomainSuffix(d) => PatternV::DomainSuffix(d@),
            RulePattern::IpNetwork(n) => PatternV::IpNetwork(n),
            RulePattern::Regex(p) => PatternV::Regex(p@),
        }
    }
}

/// A normalized rule with provenance. Immutable once aggregated: a
/// re-fetched list replaces its rules, never mutates them.
#[derive(Debug)]
pub struct Rule {
    pub pattern: RulePattern,
    pub allow: bool,
    pub rule_id: RuleId,
    pub source_id: SourceId,
    pub list_id: ListId,
}

/// The mathematical model of a rule.
pub struct RuleV {
    pub pattern: PatternV,
    pub allow: bool,
    pub rule_id: RuleId,
    pub source_id: SourceId,
    pub list_id: ListId,
}

impl Rule {
    /// The rule's model.
    pub open spec fn view(self) -> RuleV {
        RuleV {
            pattern: self.pattern.view(),
            allow: self.allow,
            rule_id: self.rule_id,
            source_id: self.source_id,
            list_id: self.list_id,
        }
    }

    /// Structural validity: network patterns carry a well-formed network.
    pub open spec fn wf(self) -> bool {
        match self.pattern {
            RulePattern::IpNetwork(n) => n.wf(),
            _ => true,
        }
    }
}

/// Whether a rule's pattern applies to domain `d`.
pub open spec fn rule_matches_domain(r: RuleV, d: Seq<u8>) -> bool {
    match r.pattern {
        PatternV::DomainExact(p) => p == d,
        PatternV::DomainSuffix(p) => suffix_match(d, p),
        PatternV::IpNetwork(_) => false,
        PatternV::Regex(p) => regex_valid_of(p) && regex_match_of(p, d),
    }
}

/// Whether a rule's pattern applies to address `(addr, v6)`.
pub open spec fn rule_matches_ip(r: RuleV, addr: u128, v6: bool) -> bool {
    match r.pattern {
        PatternV::IpNetwork(n) => net_contains(n, addr, v6),
        _ => false,
    }
}

/// Decides whether a rule applies to a domain.
pub fn matches_domain(r: &Rule, d: &[u8]) -> (b: bool)
    ensures
        b == rule_matches_domain(r.view(), d@),
{
    match &r.pattern {
        RulePattern::DomainExact(p) => bytes_eq(p.as_slice(), d),
        RulePattern::DomainSuffix(p) => is_suffix_match(d, p.as_slice()),
        RulePattern::IpNetwork(_) => false,
        RulePattern::Regex(p) => regex_matches(p.as_slice(), d),
    }
}

/// Decides whether a rule applies to an address.
pub fn matches_ip(r: &Rule, addr: u128, v6: bool) -> (b: bool)
    requires
        r.wf(),
        !v6 ==> addr < 0x100000000,
    ensures
        b == rule_matches_ip(r.view(), addr, v6),
{
    match &r.pattern {
        RulePattern::IpNetwork(n) => contains_addr(n, addr, v6),
        _ => false,
    }
}

/// The outcome of a block/allow query.
#[derive(Debug, Copy, Clone, PartialEq, Eq, Structural)]
pub enum Decision {
    /// An allow rule matched; allow wins over any matching block rule.
    Allowed,
    /// At least one block rule matched and no allow rule did; carries the
    /// most specific matching block rule.
    Blocked(RuleId),
    /// No rule matched.
    Unlisted,
}

/// Precedence rank of a block rule for domain queries: exact matches come
/// before suffix matches, regex rules are evaluated last.
pub open spec fn domain_kind_rank(p: PatternV) -> int {
    match p {
        PatternV::DomainExact(_) => 0,
        PatternV::DomainSuffix(_) => 1,
        PatternV::Regex(_) => 2,
        PatternV::IpNetwork(_) => 3,
    }
}

/// Whether block rule `a` beats block rule `b` for a domain query: lower
/// kind rank first; among suffix rules the longer (more specific) suffix.
/// Ties keep the earlier rule.
pub open spec fn better_domain_block(a: RuleV, b: RuleV) -> bool {
    if domain_kind_rank(a.pattern) != domain_kind_rank(b.pattern) {
        domain_kind_rank(a.pattern) < domain_kind_rank(b.pattern)
    } else {
        match (a.pattern, b.pattern) {
            (PatternV::DomainSuffix(x), PatternV::DomainSuffix(y)) => x.len() > y.len(),
            _ => false,
        }
    }
}

/// Whether block rule `a` beats block rule `b` for an address query: the
/// longer prefix (more specific network) wins; ties keep the earlier rule.
pub open spec fn better_ip_block(a: RuleV, b: RuleV) -> bool {
    match (a.pattern, b.pattern) {
        (PatternV::IpNetwork(m), PatternV::IpNetwork(n)) => m.prefix > n.prefix,
        _ => false,
    }
}

/// Decides domain-query precedence between two block rules.
pub fn is_better_domain_block(a: &Rule, b: &Rule) -> (r: bool)
    ensures
        r == better_domain_block(a.view(), b.view()),
{
    let ra: u8 = match &a.pattern {
        RulePattern::DomainExact(_) => 0,
        RulePattern::DomainSuffix(_) => 1,
        RulePattern::Regex(_) => 2,
        RulePattern::IpNetwork(_) => 3,
    };
    let rb: u8 = match &b.pattern {
        RulePattern::DomainExact(_) => 0,
        RulePattern::DomainSuffix(_) => 1,
        RulePattern::Regex(_) => 2,
        RulePattern::IpNetwork(_) => 3,
    };
    if ra != rb {
        ra < rb
    } else {
        match (&a.pattern, &b.pattern) {
            (RulePattern::DomainSuffix(x), RulePattern::DomainSuffix(y)) => x.len() > y.len(),
            _ => false,
        }
    }
}

/// Decides address-query precedence between two block rules.
pub fn is_better_ip_block(a: &Rule, b: &Rule) -> (r: bool)
    ensures
        r == better_ip_block(a.view(), b.view()),
{
    match (&a.pattern, &b.pattern) {
        (RulePattern::IpNetwork(m), RulePattern::IpNetwork(n)) => m.prefix > n.prefix,
        _ => false,
    }
}

} // verus!
