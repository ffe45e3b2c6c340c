//! Per-format list parsers and the normalizer: raw list text in, canonical
//! rules and per-line diagnostics out. A malformed line is reported and
//! skipped; it never discards the rest of the list.

use vstd::prelude::*;
use crate::domain::valid_domain;
use crate::domain::is_valid_domain;
use crate::ip::{IpNet, spec_parse_ipv4, spec_parse_ipv4_net, parse_ipv4, parse_ipv4_net};
use crate::rules::{
    Rule,
    RuleV,
    RulePattern,
    PatternV,
    regex_valid_of,
    regex_is_valid,
};
use crate::text::{spec_trim, spec_split, trim, split_on};
use crate::{FilterListType, RuleId, SourceId, ListId};

verus! {

/// Why a line was rejected.
#[derive(Debug, Copy, Clone, PartialEq, Eq, Structural)]
pub enum ParseErrorKind {
    InvalidDomain,
    InvalidIp,
    InvalidNet,
    InvalidRegex,
}

/// What one line contributes: a normalized entry, nothing, or a diagnostic.
#[derive(Debug)]
pub enum LineOut {
    Entry(RulePattern, bool),
    Skip,
    Bad(ParseErrorKind),
}

/// The mathematical model of a line's contribution.
pub enum LineOutV {
    Entry(PatternV, bool),
    Skip,
    Bad(ParseErrorKind),
}

impl LineOut {
    /// The contribution's model.
    pub open spec fn view(self) -> LineOutV {
        match self {
            LineOut::Entry(p, allow) => LineOutV::Entry(p.view(), allow),
            LineOut::Skip => LineOutV::Skip,
            LineOut::Bad(k) => LineOutV::Bad(k),
        }
    }
}

/// An Adblock-format line, already trimmed and known non-empty: `||d^`
/// blocks domain `d` and its subdomains, `@@||d^` allowlists them, `!`
/// introduces a comment, and every other rule kind (cosmetic, script) is
/// out of scope for a network-level filter and is skipped.
pub open spec fn spec_parse_adblock(t: Seq<u8>) -> LineOutV {
    if t[0] == 33 {
        LineOutV::Skip
    } else if t.len() >= 6 && t[0] == 64 && t[1] == 64 && t[2] == 124 && t[3] == 124 && t[t.len()
        - 1] == 94 {
        if valid_domain(t.subrange(4, t.len() - 1)) {
            LineOutV::Entry(PatternV::DomainSuffix(t.subrange(4, t.len() - 1)), true)
        } else {
            LineOutV::Bad(ParseErrorKind::InvalidDomain)
        }
    } else if t.len() >= 4 && t[0] == 124 && t[1] == 124 && t[t.len() - 1] == 94 {
        if valid_domain(t.subrange(2, t.len() - 1)) {
            LineOutV::Entry(PatternV::DomainSuffix(t.subrange(2, t.len() - 1)), false)
        } else {
            LineOutV::Bad(ParseErrorKind::InvalidDomain)
        }
    } else {
        LineOutV::Skip
    }
}

/// The space-separated tokens of a line, empty fields dropped.
pub open spec fn spec_tokens(parts: Seq<Seq<u8>>) -> Seq<Seq<u8>>
    decreases parts.len(),
{
    if parts.len() == 0 {
        Seq::empty()
    } else {
        spec_tokens(parts.drop_last()) + (if parts.last().len() > 0 {
            seq![parts.last()]
        } else {
            Seq::empty()
        })
    }
}

/// The bytes of the token `CNAME`.
pub open spec fn rpz_cname() -> Seq<u8> {
    seq![67u8, 78u8, 65u8, 77u8, 69u8]
}

/// The bytes of the token `rpz-passthru.`.
pub open spec fn rpz_passthru() -> Seq<u8> {
    seq![114u8, 112u8, 122u8, 45u8, 112u8, 97u8, 115u8, 115u8, 116u8, 104u8, 114u8, 117u8, 46u8]
}

/// An owner name with an optional trailing root dot removed.
pub open spec fn spec_strip_root_dot(s: Seq<u8>) -> Seq<u8> {
    if s.len() > 0 && s[s.len() - 1] == 46 {
        s.drop_last()
    } else {
        s
    }
}

/// A response-policy-zone line: only the policy triggers `owner CNAME .`
/// (block) and `owner CNAME rpz-passthru.` (allow) are meaningful; every
/// other record type is skipped. Tokens are separated by spaces.
pub open spec fn spec_parse_rpz(t: Seq<u8>) -> LineOutV {
    let toks = spec_tokens(spec_split(t, 32));
    if toks.len() == 3 && toks[1] == rpz_cname() {
        let owner = spec_strip_root_dot(toks[0]);
        if toks[2] == seq![46u8] {
            if valid_domain(owner) {
                LineOutV::Entry(PatternV::DomainExact(owner), false)
            } else {
                LineOutV::Bad(ParseErrorKind::InvalidDomain)
            }
        } else if toks[2] == rpz_passthru() {
            if valid_domain(owner) {
                LineOutV::Entry(PatternV::DomainExact(owner), true)
            } else {
                LineOutV::Bad(ParseErrorKind::InvalidDomain)
            }
        } else {
            LineOutV::Skip
        }
    } else {
        LineOutV::Skip
    }
}

/// What one line of a list in format `fmt` contributes, after trimming:
/// blank lines and `#` comments contribute nothing; domain-list formats
/// expect one domain per line; IP formats one address or network per line;
/// regex formats one pattern per line, checked eagerly; Adblock and RPZ
/// lines follow their own token rules.
pub open spec fn spec_parse_line(fmt: FilterListType, line: Seq<u8>) -> LineOutV {
    let t = spec_trim(line);
    if t.len() == 0 {
        LineOutV::Skip
    } else if t[0] == 35 {
        LineOutV::Skip
    } else {
        match fmt {
            FilterListType::DomainBlocklist => spec_domain_line(t, false, false),
            FilterListType::DomainAllowlist => spec_domain_line(t, false, true),
            FilterListType::Hostfile => spec_domain_line(t, false, false),
            FilterListType::DenyHosts => spec_domain_line(t, false, false),
            FilterListType::PrivacyBadger => spec_domain_line(t, true, false),
            FilterListType::IPBlocklist => spec_ip_line(t, false),
            FilterListType::IPAllowlist => spec_ip_line(t, true),
            FilterListType::IPNetBlocklist => spec_net_line(t),
            FilterListType::RegexAllowlist => spec_regex_line(t, true),
            FilterListType::RegexBlocklist => spec_regex_line(t, false),
            FilterListType::Adblock => spec_parse_adblock(t),
            FilterListType::DNSRPZ => spec_parse_rpz(t),
        }
    }
}

/// One domain per line; `suffix` chooses subdomain-covering rules.
pub open spec fn spec_domain_line(t: Seq<u8>, suffix: bool, allow: bool) -> LineOutV {
    if valid_domain(t) {
        if suffix {
            LineOutV::Entry(PatternV::DomainSuffix(t), allow)
        } else {
            LineOutV::Entry(PatternV::DomainExact(t), allow)
        }
    } else {
        LineOutV::Bad(ParseErrorKind::InvalidDomain)
    }
}

/// One IPv4 address per line, normalized to a full-prefix network.
pub open spec fn spec_ip_line(t: Seq<u8>, allow: bool) -> LineOutV {
    match spec_parse_ipv4(t) {
        Some(a) => LineOutV::Entry(
            PatternV::IpNetwork(IpNet { addr: a as u128, prefix: 32u8, v6: false }),
            allow,
        ),
        None => LineOutV::Bad(ParseErrorKind::InvalidIp),
    }
}

/// One CIDR network per line; malformed masks are rejected.
pub open spec fn spec_net_line(t: Seq<u8>) -> LineOutV {
    match spec_parse_ipv4_net(t) {
        Some(n) => LineOutV::Entry(PatternV::IpNetwork(n), false),
        None => LineOutV::Bad(ParseErrorKind::InvalidNet),
    }
}

/// One regex pattern per line, compiled eagerly so an invalid pattern fails
/// at parse time, not at query time.
pub open spec fn spec_regex_line(t: Seq<u8>, allow: bool) -> LineOutV {
    if regex_valid_of(t) {
        LineOutV::Entry(PatternV::Regex(t), allow)
    } else {
        LineOutV::Bad(ParseErrorKind::InvalidRegex)
    }
}

/// Drops empty fields from split output.
fn tokens_of(parts: &Vec<Vec<u8>>) -> (r: Vec<Vec<u8>>)
    ensures
        r.deep_view() == spec_tokens(parts.deep_view()),
{
    let len = parts.len();
    let mut out: Vec<Vec<u8>> = Vec::new();
    let mut i: usize = 0;
    proof {
        assert(parts.deep_view().subrange(0, 0) =~= Seq::<Seq<u8>>::empty());
        assert(spec_tokens(parts.deep_view().subrange(0, 0)) =~= Seq::<Seq<u8>>::empty());
        assert(out.deep_view() =~~= Seq::<Seq<u8>>::empty());
    }
    while i < len
        invariant
            len == parts@.len(),
            i <= len,
            out.deep_view() =~~= spec_tokens(parts.deep_view().subrange(0, i as int)),
        decreases len - i,
    {
        let ghost pv = parts.deep_view();
        let p = &parts[i];
        if p.len() > 0 {
            let mut copy: Vec<u8> = Vec::new();
            let mut j: usize = 0;
            while j < p.len()
                invariant
                    j <= p@.len(),
                    copy@ =~= p@.subrange(0, j as int),
                decreases p@.len() - j,
            {
                copy.push(p[j]);
                proof {
                    assert(copy@ =~= p@.subrange(0, j + 1));
                }
                j += 1;
            }
            proof {
                assert(copy@ =~= p@);
            }
            out.push(copy);
        }
        proof {
            assert(pv.subrange(0, i + 1).drop_last() =~= pv.subrange(0, i as int));
            assert(pv.subrange(0, i + 1).last() == pv[i as int]);
            assert(pv[i as int] =~= p@);
        }
        i += 1;
    }
    proof {
        assert(parts.deep_view().subrange(0, len as int) =~= parts.deep_view());
    }
    out
}

/// Compares a token with `CNAME`.
fn is_cname_tok(t: &[u8]) -> (r: bool)
    ensures
        r == (t@ == rpz_cname()),
{
    if t.len() != 5 {
        return false;
    }
    let r = *vstd::slice::slice_index_get(t, 0) == 67 && *vstd::slice::slice_index_get(t, 1) == 78
        && *vstd::slice::slice_index_get(t, 2) == 65 && *vstd::slice::slice_index_get(t, 3) == 77
        && *vstd::slice::slice_index_get(t, 4) == 69;
    proof {
        if r {
            assert(t@ =~= rpz_cname());
        }
    }
    r
}

/// Compares a token with `rpz-passthru.`.
fn is_passthru_tok(t: &[u8]) -> (r: bool)
    ensures
        r == (t@ == rpz_passthru()),
{
    if t.len() != 13 {
        return false;
    }
    let r = *vstd::slice::slice_index_get(t, 0) == 114 && *vstd::slice::slice_index_get(t, 1)
        == 112 && *vstd::slice::slice_index_get(t, 2) == 122 && *vstd::slice::slice_index_get(t, 3)
        == 45 && *vstd::slice::slice_index_get(t, 4) == 112 && *vstd::slice::slice_index_get(t, 5)
        == 97 && *vstd::slice::slice_index_get(t, 6) == 115 && *vstd::slice::slice_index_get(t, 7)
        == 115 && *vstd::slice::slice_index_get(t, 8) == 116 && *vstd::slice::slice_index_get(t, 9)
        == 104 && *vstd::slice::slice_index_get(t, 10) == 114 && *vstd::slice::slice_index_get(
        t,
        11,
    ) == 117 && *vstd::slice::slice_index_get(t, 12) == 46;
    proof {
        if r {
            assert(t@ =~= rpz_passthru());
        }
    }
    r
}

/// Parses one line of a list in format `fmt`.
pub fn parse_line(fmt: FilterListType, line: &[u8]) -> (r: LineOut)
    ensures
        r.view() == spec_parse_line(fmt, line@),
        (r matches LineOut::Entry(RulePattern::IpNetwork(n), _) ==> n.wf()),
{
    let t = trim(line);
    if t.len() == 0 {
        return LineOut::Skip;
    }
    if t[0] == 35 {
        return LineOut::Skip;
    }
    match fmt {
        FilterListType::DomainBlocklist => domain_line(t, false, false),
        FilterListType::DomainAllowlist => domain_line(t, false, true),
        FilterListType::Hostfile => domain_line(t, false, false),
        FilterListType::DenyHosts => domain_line(t, false, false),
        FilterListType::PrivacyBadger => domain_line(t, true, false),
        FilterListType::IPBlocklist => ip_line(t, false),
        FilterListType::IPAllowlist => ip_line(t, true),
        FilterListType::IPNetBlocklist => net_line(t),
        FilterListType::RegexAllowlist => regex_line(t, true),
        FilterListType::RegexBlocklist => regex_line(t, false),
        FilterListType::Adblock => adblock_line(t),
        FilterListType::DNSRPZ => rpz_line(t),
    }
}

fn domain_line(t: Vec<u8>, suffix: bool, allow: bool) -> (r: LineOut)
    ensures
        r.view() == spec_domain_line(t@, suffix, allow),
        !(r matches LineOut::Entry(RulePattern::IpNetwork(_), _)),
{
    if is_valid_domain(t.as_slice()) {
        if suffix {
            LineOut::Entry(RulePattern::DomainSuffix(t), allow)
        } else {
            LineOut::Entry(RulePattern::DomainExact(t), allow)
        }
    } else {
        LineOut::Bad(ParseErrorKind::InvalidDomain)
    }
}

fn ip_line(t: Vec<u8>, allow: bool) -> (r: LineOut)
    ensures
        r.view() == spec_ip_line(t@, allow),
        (r matches LineOut::Entry(RulePattern::IpNetwork(n), _) ==> n.wf()),
{
    match parse_ipv4(t.as_slice()) {
        Some(a) => LineOut::Entry(
            RulePattern::IpNetwork(IpNet { addr: a as u128, prefix: 32, v6: false }),
            allow,
        ),
        None => LineOut::Bad(ParseErrorKind::InvalidIp),
    }
}

fn net_line(t: Vec<u8>) -> (r: LineOut)
    ensures
        r.view() == spec_net_line(t@),
        (r matches LineOut::Entry(RulePattern::IpNetwork(n), _) ==> n.wf()),
{
    match parse_ipv4_net(t.as_slice()) {
        Some(n) => LineOut::Entry(RulePattern::IpNetwork(n), false),
        None => LineOut::Bad(ParseErrorKind::InvalidNet),
    }
}

fn regex_line(t: Vec<u8>, allow: bool) -> (r: LineOut)
    ensures
        r.view() == spec_regex_line(t@, allow),
        !(r matches LineOut::Entry(RulePattern::IpNetwork(_), _)),
{
    if regex_is_valid(t.as_slice()) {
        LineOut::Entry(RulePattern::Regex(t), allow)
    } else {
        LineOut::Bad(ParseErrorKind::InvalidRegex)
    }
}

fn adblock_line(t: Vec<u8>) -> (r: LineOut)
    requires
        t@.len() > 0,
    ensures
        r.view() == spec_parse_adblock(t@),
        !(r matches LineOut::Entry(RulePattern::IpNetwork(_), _)),
{
    let len = t.len();
    if t[0] == 33 {
        return LineOut::Skip;
    }
    if len >= 6 && t[0] == 64 && t[1] == 64 && t[2] == 124 && t[3] == 124 && t[len - 1] == 94 {
        let inner = vstd::slice::slice_subrange(t.as_slice(), 4, len - 1);
        if is_valid_domain(inner) {
            LineOut::Entry(RulePattern::DomainSuffix(vstd::slice::slice_to_vec(inner)), true)
        } else {
            LineOut::Bad(ParseErrorKind::InvalidDomain)
        }
    } else if len >= 4 && t[0] == 124 && t[1] == 124 && t[len - 1] == 94 {
        let inner = vstd::slice::slice_subrange(t.as_slice(), 2, len - 1);
        if is_valid_domain(inner) {
            LineOut::Entry(RulePattern::DomainSuffix(vstd::slice::slice_to_vec(inner)), false)
        } else {
            LineOut::Bad(ParseErrorKind::InvalidDomain)
        }
    } else {
        LineOut::Skip
    }
}

fn rpz_line(t: Vec<u8>) -> (r: LineOut)
    ensures
        r.view() == spec_parse_rpz(t@),
        !(r matches LineOut::Entry(RulePattern::IpNetwork(_), _)),
{
    let parts = split_on(t.as_slice(), 32);
    let toks = tokens_of(&parts);
    proof {
        assert(toks.deep_view() == spec_tokens(spec_split(t@, 32)));
    }
    if toks.len() != 3 {
        return LineOut::Skip;
    }
    proof {
        assert(toks@[0]@ =~= toks.deep_view()[0]);
        assert(toks@[1]@ =~= toks.deep_view()[1]);
        assert(toks@[2]@ =~= toks.deep_view()[2]);
    }
    if !is_cname_tok(toks[1].as_slice()) {
        return LineOut::Skip;
    }
    let target = &toks[2];
    let is_block = target.len() == 1 && target[0] == 46;
    proof {
        if is_block {
            assert(target@ =~= seq![46u8]);
        } else {
            assert(target@ != seq![46u8]);
        }
    }
    let is_allow = is_passthru_tok(target.as_slice());
    if !is_block && !is_allow {
        return LineOut::Skip;
    }
    let owner = &toks[0];
    let olen = owner.len();
    let stripped: Vec<u8> = if olen > 0 && owner[olen - 1] == 46 {
        let s = vstd::slice::slice_to_vec(vstd::slice::slice_subrange(owner.as_slice(), 0, olen - 1));
        proof {
            assert(s@ =~= spec_strip_root_dot(owner@));
        }
        s
    } else {
        let s = vstd::slice::slice_to_vec(owner.as_slice());
        s
    };
    if is_valid_domain(stripped.as_slice()) {
        LineOut::Entry(RulePattern::DomainExact(stripped), !is_block)
    } else {
        LineOut::Bad(ParseErrorKind::InvalidDomain)
    }
}

/// A per-line diagnostic: the 1-based line number and the reason.
#[derive(Debug, Copy, Clone, PartialEq, Eq, Structural)]
pub struct LineDiagnostic {
    pub line: usize,
    pub kind: ParseErrorKind,
}

/// What parsing a whole list yields: the normalized rules of all valid
/// lines and a diagnostic for each malformed one.
#[derive(Debug)]
pub struct ParseOutcome {
    pub rules: Vec<Rule>,
    pub diagnostics: Vec<LineDiagnostic>,
}

/// The rules one line contributes (none for skipped or malformed lines).
pub open spec fn spec_line_rule(
    fmt: FilterListType,
    line: Seq<u8>,
    lid: ListId,
    sid: SourceId,
) -> Seq<RuleV> {
    match spec_parse_line(fmt, line) {
        LineOutV::Entry(p, allow) => seq![
            RuleV {
                pattern: p,
                allow: allow,
                rule_id: RuleId(0),
                source_id: sid,
                list_id: lid,
            },
        ],
        _ => Seq::empty(),
    }
}

/// The diagnostics one line contributes, numbered `n`.
pub open spec fn spec_line_diag(fmt: FilterListType, line: Seq<u8>, n: int) -> Seq<
    (int, ParseErrorKind),
> {
    match spec_parse_line(fmt, line) {
        LineOutV::Bad(k) => seq![(n, k)],
        _ => Seq::empty(),
    }
}

/// The rules of a sequence of lines, in line order.
pub open spec fn spec_rules_of_lines(
    fmt: FilterListType,
    lines: Seq<Seq<u8>>,
    lid: ListId,
    sid: SourceId,
) -> Seq<RuleV>
    decreases lines.len(),
{
    if lines.len() == 0 {
        Seq::empty()
    } else {
        spec_rules_of_lines(fmt, lines.drop_last(), lid, sid) + spec_line_rule(
            fmt,
            lines.last(),
            lid,
            sid,
        )
    }
}

/// The diagnostics of a sequence of lines, with 1-based line numbers.
pub open spec fn spec_diags_of_lines(fmt: FilterListType, lines: Seq<Seq<u8>>) -> Seq<
    (int, ParseErrorKind),
>
    decreases lines.len(),
{
    if lines.len() == 0 {
        Seq::empty()
    } else {
        spec_diags_of_lines(fmt, lines.drop_last()) + spec_line_diag(
            fmt,
            lines.last(),
            lines.len() as int,
        )
    }
}

/// The normalized rules of a whole list text.
pub open spec fn spec_list_rules(
    fmt: FilterListType,
    text: Seq<u8>,
    lid: ListId,
    sid: SourceId,
) -> Seq<RuleV> {
    spec_rules_of_lines(fmt, spec_split(text, 10), lid, sid)
}

/// The diagnostics of a whole list text.
pub open spec fn spec_list_diags(fmt: FilterListType, text: Seq<u8>) -> Seq<
    (int, ParseErrorKind),
> {
    spec_diags_of_lines(fmt, spec_split(text, 10))
}

/// Parses and normalizes a whole list: every valid line contributes its
/// rule (tagged with the given provenance and a placeholder rule id, see
/// `RuleIndex::assign_rule_ids`), every malformed line a diagnostic.
pub fn parse_list(fmt: FilterListType, text: &[u8], list_id: ListId, source_id: SourceId) -> (out:
    ParseOutcome)
    ensures
        out.rules@.map_values(|r: Rule| r.view()) == spec_list_rules(
            fmt,
            text@,
            list_id,
            source_id,
        ),
        out.diagnostics@.map_values(|d: LineDiagnostic| (d.line as int, d.kind))
            == spec_list_diags(fmt, text@),
        forall|i: int| 0 <= i < out.rules@.len() ==> (#[trigger] out.rules@[i]).wf(),
{
    let lines = split_on(text, 10);
    let ghost lseq = lines.deep_view();
    proof {
        assert(lseq == spec_split(text@, 10));
    }
    let n = lines.len();
    let mut rules: Vec<Rule> = Vec::new();
    let mut diagnostics: Vec<LineDiagnostic> = Vec::new();
    let mut i: usize = 0;
    proof {
        assert(lseq.subrange(0, 0) =~= Seq::<Seq<u8>>::empty());
        assert(rules@.map_values(|r: Rule| r.view()) =~= Seq::<RuleV>::empty());
        assert(diagnostics@.map_values(|d: LineDiagnostic| (d.line as int, d.kind)) =~= Seq::<
            (int, ParseErrorKind),
        >::empty());
    }
    while i < n
        invariant
            n == lines@.len(),
            lseq == lines.deep_view(),
            i <= n,
            rules@.map_values(|r: Rule| r.view()) =~= spec_rules_of_lines(
                fmt,
                lseq.subrange(0, i as int),
                list_id,
                source_id,
            ),
            diagnostics@.map_values(|d: LineDiagnostic| (d.line as int, d.kind))
                =~= spec_diags_of_lines(fmt, lseq.subrange(0, i as int)),
            forall|k: int| 0 <= k < rules@.len() ==> (#[trigger] rules@[k]).wf(),
        decreases n - i,
    {
        let ghost prev_rules = rules@.map_values(|r: Rule| r.view());
        let ghost prev_diags = diagnostics@.map_values(|d: LineDiagnostic| (d.line as int, d.kind));
        let line = &lines[i];
        proof {
            assert(lseq[i as int] =~= line@);
            assert(lseq.subrange(0, i + 1).drop_last() =~= lseq.subrange(0, i as int));
            assert(lseq.subrange(0, i + 1).last() == lseq[i as int]);
            assert(lseq.subrange(0, i + 1).len() == i + 1);
        }
        match parse_line(fmt, line.as_slice()) {
            LineOut::Entry(p, allow) => {
                let rule = Rule {
                    pattern: p,
                    allow,
                    rule_id: RuleId(0),
                    source_id,
                    list_id,
                };
                rules.push(rule);
                proof {
                    assert(rules@.map_values(|r: Rule| r.view()) =~= prev_rules.push(rule.view()));
                    assert(diagnostics@.map_values(|d: LineDiagnostic| (d.line as int, d.kind))
                        =~= prev_diags);
                }
            },
            LineOut::Skip => {
            },
            LineOut::Bad(k) => {
                let diag = LineDiagnostic { line: i + 1, kind: k };
                diagnostics.push(diag);
                proof {
                    assert(diagnostics@.map_values(|d: LineDiagnostic| (d.line as int, d.kind))
                        =~= prev_diags.push((i + 1 as int, k)));
                    assert(rules@.map_values(|r: Rule| r.view()) =~= prev_rules);
                }
            },
        }
        i += 1;
    }
    proof {
        assert(lseq.subrange(0, n as int) =~= lseq);
    }
    ParseOutcome { rules, diagnostics }
}

/// One malformed line never affects another: whatever the rest of the list
/// holds, every line that parses contributes its rule to the list's rules.
pub proof fn lemma_line_independent(
    fmt: FilterListType,
    lines: Seq<Seq<u8>>,
    lid: ListId,
    sid: SourceId,
    i: int,
)
    requires
        0 <= i < lines.len(),
    ensures
        forall|r: RuleV|
            spec_line_rule(fmt, lines[i], lid, sid).contains(r) ==> spec_rules_of_lines(
                fmt,
                lines,
                lid,
                sid,
            ).contains(r),
    decreases lines.len(),
{
    let whole = spec_rules_of_lines(fmt, lines, lid, sid);
    let left = spec_rules_of_lines(fmt, lines.drop_last(), lid, sid);
    let own = spec_line_rule(fmt, lines[i], lid, sid);
    if i == lines.len() - 1 {
        assert forall|r: RuleV| own.contains(r) implies whole.contains(r) by {
            let k = choose|k: int| 0 <= k < own.len() && own[k] == r;
            assert(whole[left.len() + k] == r);
        }
    } else {
        lemma_line_independent(fmt, lines.drop_last(), lid, sid, i);
        assert(lines.drop_last()[i] == lines[i]);
        assert forall|r: RuleV| own.contains(r) implies whole.contains(r) by {
            assert(left.contains(r));
            let k = choose|k: int| 0 <= k < left.len() && left[k] == r;
            assert(whole[k] == r);
        }
    }
}

} // verus!
