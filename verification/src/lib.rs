//! Core of a DNS/IP filter-list aggregation service: parsers for the
//! supported list formats, a normalizer onto canonical rules, a registry of
//! subscribed lists, an aggregator that merges active lists into a rule
//! index, and a resolver that answers block/allow queries over domains and
//! IP addresses with allow-over-block precedence.

pub mod dns;
pub mod domain;
pub mod index;
pub mod ip;
pub mod parser;
pub mod rules;
pub mod text;

use vstd::prelude::*;
use vstd::string::*;
use crate::text::{lex_lt, lemma_lex_total, lemma_lex_trans, lex_less, bytes_eq};

verus! {

/// Opaque identifier of a normalized rule.
#[derive(Debug, Copy, Clone, PartialEq, Eq, Hash, Structural)]
pub struct RuleId(pub i32);

/// Opaque identifier of an authoring source.
#[derive(Debug, Copy, Clone, PartialEq, Eq, Hash, Structural)]
pub struct SourceId(pub i32);

/// Opaque identifier of a subscribed list.
#[derive(Debug, Copy, Clone, PartialEq, Eq, Hash, Structural)]
pub struct ListId(pub i32);

/// Opaque identifier of a registered domain name.
#[derive(Debug, Copy, Clone, PartialEq, Eq, Hash, PartialOrd, Ord, Structural)]
pub struct DomainId(pub i64);

/// The closed set of wire formats a subscribed list can declare.
#[derive(Debug, Copy, Clone, PartialEq, Eq, Hash, Structural)]
pub enum FilterListType {
    Adblock,
    DomainBlocklist,
    DomainAllowlist,
    IPBlocklist,
    IPAllowlist,
    IPNetBlocklist,
    DenyHosts,
    RegexAllowlist,
    RegexBlocklist,
    Hostfile,
    DNSRPZ,
    PrivacyBadger,
}

/// Error returned when a string is not the canonical name of any
/// `FilterListType`.
#[derive(Debug, Copy, Clone, PartialEq, Eq, Structural)]
pub struct InvalidFilterListTypeError;

impl InvalidFilterListTypeError {
    /// Human-readable description of the failure.
    pub fn message(&self) -> (r: String)
        ensures
            r@ == "Invalid FilterListType"@,
    {
        String::from_str("Invalid FilterListType")
    }
}

/// The canonical name of each format, as it appears on the wire.
pub open spec fn spec_type_name(t: FilterListType) -> Seq<char> {
    match t {
        FilterListType::Adblock => "Adblock"@,
        FilterListType::DomainBlocklist => "DomainBlocklist"@,
        FilterListType::DomainAllowlist => "DomainAllowlist"@,
        FilterListType::IPBlocklist => "IPBlocklist"@,
        FilterListType::IPAllowlist => "IPAllowlist"@,
        FilterListType::IPNetBlocklist => "IPNetBlocklist"@,
        FilterListType::DenyHosts => "DenyHosts"@,
        FilterListType::RegexAllowlist => "RegexAllowlist"@,
        FilterListType::RegexBlocklist => "RegexBlocklist"@,
        FilterListType::Hostfile => "Hostfile"@,
        FilterListType::DNSRPZ => "DNSRPZ"@,
        FilterListType::PrivacyBadger => "PrivacyBadger"@,
    }
}

/// Which format, if any, a string names. Unknown strings are a typed
/// failure, never a silent default.
pub open spec fn spec_type_from_str(s: Seq<char>) -> Result<
    FilterListType,
    InvalidFilterListTypeError,
> {
    if s == "Adblock"@ {
        Ok(FilterListType::Adblock)
    } else if s == "DomainBlocklist"@ {
        Ok(FilterListType::DomainBlocklist)
    } else if s == "DomainAllowlist"@ {
        Ok(FilterListType::DomainAllowlist)
    } else if s == "IPBlocklist"@ {
        Ok(FilterListType::IPBlocklist)
    } else if s == "IPAllowlist"@ {
        Ok(FilterListType::IPAllowlist)
    } else if s == "IPNetBlocklist"@ {
        Ok(FilterListType::IPNetBlocklist)
    } else if s == "DenyHosts"@ {
        Ok(FilterListType::DenyHosts)
    } else if s == "RegexAllowlist"@ {
        Ok(FilterListType::RegexAllowlist)
    } else if s == "RegexBlocklist"@ {
        Ok(FilterListType::RegexBlocklist)
    } else if s == "Hostfile"@ {
        Ok(FilterListType::Hostfile)
    } else if s == "DNSRPZ"@ {
        Ok(FilterListType::DNSRPZ)
    } else if s == "PrivacyBadger"@ {
        Ok(FilterListType::PrivacyBadger)
    } else {
        Err(InvalidFilterListTypeError)
    }
}

/// Character-by-character string equality.
fn str_eq(a: &str, b: &str) -> (r: bool)
    ensures
        r == (a@ == b@),
{
    let alen = a.unicode_len();
    let blen = b.unicode_len();
    if alen != blen {
        return false;
    }
    let mut i: usize = 0;
    while i < alen
        invariant
            alen == a@.len(),
            blen == b@.len(),
            alen == blen,
            i <= alen,
            forall|j: int| 0 <= j < i ==> a@[j] == b@[j],
        decreases alen - i,
    {
        if a.get_char(i) != b.get_char(i) {
            return false;
        }
        i += 1;
    }
    proof {
        assert(a@ =~= b@);
    }
    true
}

impl FilterListType {
    /// The canonical string name of this format; `from_str` accepts exactly
    /// these names.
    pub fn as_str(&self) -> (r: &'static str)
        ensures
            r@ == spec_type_name(*self),
    {
        match self {
            Self::Adblock => "Adblock",
            Self::DomainBlocklist => "DomainBlocklist",
            Self::DomainAllowlist => "DomainAllowlist",
            Self::IPBlocklist => "IPBlocklist",
            Self::IPAllowlist => "IPAllowlist",
            Self::IPNetBlocklist => "IPNetBlocklist",
            Self::DenyHosts => "DenyHosts",
            Self::RegexAllowlist => "RegexAllowlist",
            Self::RegexBlocklist => "RegexBlocklist",
            Self::Hostfile => "Hostfile",
            Self::DNSRPZ => "DNSRPZ",
            Self::PrivacyBadger => "PrivacyBadger",
        }
    }

    /// Parses a canonical format name; every other string is rejected.
    pub fn from_str(s: &str) -> (r: Result<Self, InvalidFilterListTypeError>)
        ensures
            r == spec_type_from_str(s@),
    {
        if str_eq(s, "Adblock") {
            Ok(Self::Adblock)
        } else if str_eq(s, "DomainBlocklist") {
            Ok(Self::DomainBlocklist)
        } else if str_eq(s, "DomainAllowlist") {
            Ok(Self::DomainAllowlist)
        } else if str_eq(s, "IPBlocklist") {
            Ok(Self::IPBlocklist)
        } else if str_eq(s, "IPAllowlist") {
            Ok(Self::IPAllowlist)
        } else if str_eq(s, "IPNetBlocklist") {
            Ok(Self::IPNetBlocklist)
        } else if str_eq(s, "DenyHosts") {
            Ok(Self::DenyHosts)
        } else if str_eq(s, "RegexAllowlist") {
            Ok(Self::RegexAllowlist)
        } else if str_eq(s, "RegexBlocklist") {
            Ok(Self::RegexBlocklist)
        } else if str_eq(s, "Hostfile") {
            Ok(Self::Hostfile)
        } else if str_eq(s, "DNSRPZ") {
            Ok(Self::DNSRPZ)
        } else if str_eq(s, "PrivacyBadger") {
            Ok(Self::PrivacyBadger)
        } else {
            Err(InvalidFilterListTypeError)
        }
    }
}

/// Every canonical format name parses back to the format it names: the
/// string form of `FilterListType` round-trips losslessly.
pub proof fn lemma_type_name_round_trip(t: FilterListType)
    ensures
        spec_type_from_str(spec_type_name(t)) == Ok::<FilterListType, InvalidFilterListTypeError>(
            t,
        ),
{
    reveal_strlit("Adblock");
    reveal_strlit("DomainBlocklist");
    reveal_strlit("DomainAllowlist");
    reveal_strlit("IPBlocklist");
    reveal_strlit("IPAllowlist");
    reveal_strlit("IPNetBlocklist");
    reveal_strlit("DenyHosts");
    reveal_strlit("RegexAllowlist");
    reveal_strlit("RegexBlocklist");
    reveal_strlit("Hostfile");
    reveal_strlit("DNSRPZ");
    reveal_strlit("PrivacyBadger");
    assert("Adblock"@.len() == 7);
    assert("DomainBlocklist"@.len() == 15);
    assert("DomainAllowlist"@.len() == 15);
    assert("IPBlocklist"@.len() == 11);
    assert("IPAllowlist"@.len() == 11);
    assert("IPNetBlocklist"@.len() == 14);
    assert("DenyHosts"@.len() == 9);
    assert("RegexAllowlist"@.len() == 14);
    assert("RegexBlocklist"@.len() == 14);
    assert("Hostfile"@.len() == 8);
    assert("DNSRPZ"@.len() == 6);
    assert("PrivacyBadger"@.len() == 13);
    assert("DomainAllowlist"@[6] != "DomainBlocklist"@[6]);
    assert("IPAllowlist"@[2] != "IPBlocklist"@[2]);
    assert("RegexAllowlist"@[0] != "IPNetBlocklist"@[0]);
    assert("RegexBlocklist"@[0] != "IPNetBlocklist"@[0]);
    assert("RegexBlocklist"@[5] != "RegexAllowlist"@[5]);
}

/// A rank that orders the formats; used only to break ties between two
/// entries for the same URL.
pub open spec fn type_rank(t: FilterListType) -> int {
    match t {
        FilterListType::Adblock => 0,
        FilterListType::DomainBlocklist => 1,
        FilterListType::DomainAllowlist => 2,
        FilterListType::IPBlocklist => 3,
        FilterListType::IPAllowlist => 4,
        FilterListType::IPNetBlocklist => 5,
        FilterListType::DenyHosts => 6,
        FilterListType::RegexAllowlist => 7,
        FilterListType::RegexBlocklist => 8,
        FilterListType::Hostfile => 9,
        FilterListType::DNSRPZ => 10,
        FilterListType::PrivacyBadger => 11,
    }
}

/// Executable format rank.
pub fn type_rank_exec(t: FilterListType) -> (r: u8)
    ensures
        r as int == type_rank(t),
{
    match t {
        FilterListType::Adblock => 0,
        FilterListType::DomainBlocklist => 1,
        FilterListType::DomainAllowlist => 2,
        FilterListType::IPBlocklist => 3,
        FilterListType::IPAllowlist => 4,
        FilterListType::IPNetBlocklist => 5,
        FilterListType::DenyHosts => 6,
        FilterListType::RegexAllowlist => 7,
        FilterListType::RegexBlocklist => 8,
        FilterListType::Hostfile => 9,
        FilterListType::DNSRPZ => 10,
        FilterListType::PrivacyBadger => 11,
    }
}

/// Identity of a remote list: the source URL (as bytes) together with the
/// declared format. The same URL under two formats is two distinct lists.
#[derive(Debug)]
pub struct FilterListUrl {
    pub url: Vec<u8>,
    pub list_format: FilterListType,
}

impl FilterListUrl {
    /// Builds a list identity from an already-validated URL.
    pub fn new(url: Vec<u8>, list_format: FilterListType) -> (r: Self)
        ensures
            r.url@ == url@,
            r.list_format == list_format,
    {
        Self { url, list_format }
    }
}

/// What parsing a URL string yields: the normalized serialization of the
/// URL, or nothing when the string is not a valid URL; a function of the
/// input alone.
pub uninterp spec fn url_norm_of(s: Seq<char>) -> Option<Seq<char>>;

/// Relies on `url::Url::parse` and `url::Url::as_str`: parsing fails or
/// yields a URL whose normalized serialization depends on the input alone.
#[verifier::external_body]
fn normalize_url(s: &str) -> (r: Option<String>)
    ensures
        match r {
            Some(v) => url_norm_of(s@) == Some(v@),
            None => url_norm_of(s@) is None,
        },
{
    match url::Url::parse(s) {
        Ok(u) => Some(u.as_str().to_owned()),
        Err(_) => None,
    }
}

impl FilterListUrl {
    /// Validates and normalizes a URL string into a list identity; rejects
    /// strings that are not URLs.
    pub fn parse(s: &str, list_format: FilterListType) -> (r: Option<FilterListUrl>)
        ensures
            match r {
                Some(u) => {
                    &&& url_norm_of(s@) is Some
                    &&& u.url@ == vstd::utf8::encode_utf8(url_norm_of(s@)->0)
                    &&& u.list_format == list_format
                },
                None => url_norm_of(s@) is None,
            },
    {
        match normalize_url(s) {
            Some(n) => {
                let bytes = n.as_str().as_bytes_vec();
                Some(FilterListUrl::new(bytes, list_format))
            },
            None => None,
        }
    }
}

/// Key equality over list identities: same URL bytes and same format.
pub open spec fn url_key_eq(a: FilterListUrl, b: FilterListUrl) -> bool {
    a.url@ == b.url@ && a.list_format == b.list_format
}

/// The registry's total order over list identities: URL bytes first,
/// lexicographically, then the format rank.
pub open spec fn url_lt(a: FilterListUrl, b: FilterListUrl) -> bool {
    ||| lex_lt(a.url@, b.url@)
    ||| (a.url@ == b.url@ && type_rank(a.list_format) < type_rank(b.list_format))
}

/// The order over list identities is total over key equality.
pub proof fn lemma_url_lt_total(a: FilterListUrl, b: FilterListUrl)
    ensures
        url_lt(a, b) || url_lt(b, a) || url_key_eq(a, b),
        url_lt(a, b) ==> !url_lt(b, a) && !url_key_eq(a, b),
        url_lt(b, a) ==> !url_lt(a, b) && !url_key_eq(a, b),
{
    lemma_lex_total(a.url@, b.url@);
}

/// The order over list identities is transitive.
pub proof fn lemma_url_lt_trans(a: FilterListUrl, b: FilterListUrl, c: FilterListUrl)
    requires
        url_lt(a, b),
        url_lt(b, c),
    ensures
        url_lt(a, c),
{
    lemma_lex_total(a.url@, b.url@);
    lemma_lex_total(b.url@, c.url@);
    if lex_lt(a.url@, b.url@) && lex_lt(b.url@, c.url@) {
        lemma_lex_trans(a.url@, b.url@, c.url@);
    }
}

/// Decides the registry order.
pub fn url_less(a: &FilterListUrl, b: &FilterListUrl) -> (r: bool)
    ensures
        r == url_lt(*a, *b),
{
    if lex_less(a.url.as_slice(), b.url.as_slice()) {
        return true;
    }
    proof {
        lemma_lex_total(a.url@, b.url@);
    }
    if bytes_eq(a.url.as_slice(), b.url.as_slice()) {
        type_rank_exec(a.list_format) < type_rank_exec(b.list_format)
    } else {
        false
    }
}

/// Decides key equality.
pub fn url_key_equal(a: &FilterListUrl, b: &FilterListUrl) -> (r: bool)
    ensures
        r == url_key_eq(*a, *b),
{
    bytes_eq(a.url.as_slice(), b.url.as_slice()) && type_rank_exec(a.list_format)
        == type_rank_exec(b.list_format)
}

/// Metadata attached to a subscribed list: display name, author, license,
/// and a time-to-live in seconds counted from the last successful fetch.
#[derive(Debug, Clone)]
pub struct FilterListRecord {
    pub name: String,
    pub author: String,
    pub license: String,
    pub expires: u64,
}

/// A list is stale once more than `expires` seconds have elapsed since it
/// was last fetched. A `now` before the fetch time never counts as stale.
pub open spec fn spec_expired(expires: u64, fetched_at: u64, now: u64) -> bool {
    (fetched_at as int + expires as int) < (now as int)
}

impl FilterListRecord {
    /// Whether this list's time-to-live has elapsed.
    pub fn is_expired(&self, fetched_at: u64, now: u64) -> (r: bool)
        ensures
            r == spec_expired(self.expires, fetched_at, now),
    {
        (fetched_at as u128) + (self.expires as u128) < (now as u128)
    }
}

/// The record stored for key `url`, if any.
pub open spec fn spec_get(
    s: Seq<(FilterListUrl, FilterListRecord)>,
    url: FilterListUrl,
) -> Option<FilterListRecord>
    decreases s.len(),
{
    if s.len() == 0 {
        None
    } else if url_key_eq(s[0].0, url) {
        Some(s[0].1)
    } else {
        spec_get(s.drop_first(), url)
    }
}

/// The List Registry: a mapping from list identity to metadata with unique
/// keys and a deterministic iteration order (ascending by `url_lt`).
#[derive(Debug)]
pub struct FilterListMap {
    pub entries: Vec<(FilterListUrl, FilterListRecord)>,
}

impl FilterListMap {
    /// Entries are strictly ascending in the key order, so every key occurs
    /// at most once and iteration order is reproducible across runs.
    pub open spec fn wf(self) -> bool {
        forall|i: int, j: int|
            0 <= i < j < self.entries@.len() ==> #[trigger] url_lt(
                self.entries@[i].0,
                self.entries@[j].0,
            )
    }

    /// The entries, in iteration order.
    pub open spec fn view_entries(self) -> Seq<(FilterListUrl, FilterListRecord)> {
        self.entries@
    }

    /// An empty registry.
    pub fn new() -> (r: Self)
        ensures
            r.wf(),
            r.view_entries().len() == 0,
    {
        FilterListMap { entries: Vec::new() }
    }

    /// Number of subscribed lists.
    pub fn len(&self) -> (r: usize)
        ensures
            r == self.view_entries().len(),
    {
        self.entries.len()
    }

    /// Read access to the ordered entries.
    pub fn pairs(&self) -> (r: &Vec<(FilterListUrl, FilterListRecord)>)
        ensures
            r@ == self.view_entries(),
    {
        &self.entries
    }

    /// Looks a list's metadata up by key.
    pub fn get(&self, url: &FilterListUrl) -> (r: Option<&FilterListRecord>)
        ensures
            match r {
                Some(rec) => spec_get(self.view_entries(), *url) == Some(*rec),
                None => spec_get(self.view_entries(), *url) is None,
            },
    {
        let len = self.entries.len();
        let mut i: usize = 0;
        proof {
            assert(self.entries@.subrange(0, len as int) =~= self.entries@);
        }
        while i < len
            invariant
                len == self.entries@.len(),
                i <= len,
                spec_get(self.entries@, *url) == spec_get(
                    self.entries@.subrange(i as int, len as int),
                    *url,
                ),
            decreases len - i,
        {
            let ghost rest = self.entries@.subrange(i as int, len as int);
            let e = &self.entries[i];
            if url_key_equal(&e.0, url) {
                proof {
                    assert(rest[0] == self.entries@[i as int]);
                }
                return Some(&e.1);
            }
            proof {
                assert(rest[0] == self.entries@[i as int]);
                assert(rest.drop_first() =~= self.entries@.subrange(i + 1, len as int));
            }
            i += 1;
        }
        proof {
            assert(self.entries@.subrange(len as int, len as int).len() == 0);
        }
        None
    }

    /// Inserts or replaces the metadata for `url`. A duplicate key replaces
    /// the stored record and never duplicates the entry.
    pub fn upsert(&mut self, url: FilterListUrl, record: FilterListRecord)
        requires
            old(self).wf(),
        ensures
            final(self).wf(),
            final(self).view_entries().contains((url, record)),
            forall|i: int|
                0 <= i < old(self).view_entries().len() && !url_key_eq(
                    (#[trigger] old(self).view_entries()[i]).0,
                    url,
                ) ==> final(self).view_entries().contains(old(self).view_entries()[i]),
            forall|i: int|
                0 <= i < final(self).view_entries().len() ==> (#[trigger] final(
                    self).view_entries()[i]) == (url, record) || old(self).view_entries().contains(
                    final(self).view_entries()[i],
                ),
    {
        let len = self.entries.len();
        let mut i: usize = 0;
        while i < len && url_less(&self.entries[i].0, &url)
            invariant
                len == self.entries@.len(),
                i <= len,
                forall|j: int| 0 <= j < i ==> url_lt((#[trigger] self.entries@[j]).0, url),
            decreases len - i,
        {
            i += 1;
        }
        let ghost prev = self.entries@;
        if i < len && url_key_equal(&self.entries[i].0, &url) {
            self.entries.remove(i);
            self.entries.insert(i, (url, record));
            proof {
                let cur = self.entries@;
                assert(cur =~= prev.update(i as int, (url, record)));
                assert forall|p: int, q: int| 0 <= p < q < cur.len() implies #[trigger] url_lt(
                    cur[p].0,
                    cur[q].0,
                ) by {
                    assert(url_lt(prev[p].0, prev[q].0));
                    if p == i {
                        assert(url_key_eq(prev[i as int].0, url));
                    }
                    if q == i {
                        assert(url_key_eq(prev[i as int].0, url));
                    }
                }
                assert(cur[i as int] == (url, record));
                assert(cur.contains((url, record)));
                assert forall|j: int|
                    0 <= j < prev.len() && !url_key_eq((#[trigger] prev[j]).0, url) implies cur.contains(
                    prev[j],
                ) by {
                    assert(cur[j] == prev[j]);
                }
                assert forall|j: int| 0 <= j < cur.len() implies (#[trigger] cur[j]) == (
                    url,
                    record,
                ) || prev.contains(cur[j]) by {
                    if j != i {
                        assert(cur[j] == prev[j]);
                    }
                }
            }
        } else {
            proof {
                if i < len {
                    lemma_url_lt_total(self.entries@[i as int].0, url);
                }
            }
            self.entries.insert(i, (url, record));
            proof {
                let cur = self.entries@;
                assert(cur =~= prev.insert(i as int, (url, record)));
                assert forall|p: int, q: int| 0 <= p < q < cur.len() implies #[trigger] url_lt(
                    cur[p].0,
                    cur[q].0,
                ) by {
                    if p < i && q > i {
                        assert(cur[p] == prev[p]);
                        assert(cur[q] == prev[q - 1]);
                        assert(url_lt(prev[p].0, url));
                        assert(url_lt(url, prev[q - 1].0)) by {
                            assert(!url_lt(prev[i as int].0, url));
                            lemma_url_lt_total(prev[i as int].0, url);
                            if q - 1 > i {
                                assert(url_lt(prev[i as int].0, prev[q - 1].0));
                                lemma_url_lt_trans(url, prev[i as int].0, prev[q - 1].0);
                            }
                        }
                    } else if q == i {
                        assert(cur[p] == prev[p]);
                        assert(url_lt(prev[p].0, url));
                    } else if p == i {
                        assert(cur[q] == prev[q - 1]);
                        assert(!url_lt(prev[i as int].0, url));
                        lemma_url_lt_total(prev[i as int].0, url);
                        if q - 1 > i {
                            assert(url_lt(prev[i as int].0, prev[q - 1].0));
                            lemma_url_lt_trans(url, prev[i as int].0, prev[q - 1].0);
                        } else {
                            assert(q - 1 == i);
                        }
                    } else if q < i {
                        assert(cur[p] == prev[p] && cur[q] == prev[q]);
                    } else {
                        assert(p > i);
                        assert(cur[p] == prev[p - 1] && cur[q] == prev[q - 1]);
                    }
                }
                assert(cur[i as int] == (url, record));
                assert(cur.contains((url, record)));
                assert forall|j: int|
                    0 <= j < prev.len() && !url_key_eq((#[trigger] prev[j]).0, url) implies cur.contains(
                    prev[j],
                ) by {
                    if j < i {
                        assert(cur[j] == prev[j]);
                    } else {
                        assert(cur[j + 1] == prev[j]);
                    }
                }
                assert forall|j: int| 0 <= j < cur.len() implies (#[trigger] cur[j]) == (
                    url,
                    record,
                ) || prev.contains(cur[j]) by {
                    if j < i {
                        assert(cur[j] == prev[j]);
                    } else if j > i {
                        assert(cur[j] == prev[j - 1]);
                    }
                }
            }
        }
    }

    /// Removes the entry for `url`, if present; reports whether one was.
    pub fn remove(&mut self, url: &FilterListUrl) -> (r: bool)
        requires
            old(self).wf(),
        ensures
            final(self).wf(),
            r == (spec_get(old(self).view_entries(), *url) is Some),
            forall|i: int|
                0 <= i < final(self).view_entries().len() ==> !url_key_eq(
                    (#[trigger] final(self).view_entries()[i]).0,
                    *url,
                ),
            forall|i: int|
                0 <= i < old(self).view_entries().len() && !url_key_eq(
                    (#[trigger] old(self).view_entries()[i]).0,
                    *url,
                ) ==> final(self).view_entries().contains(old(self).view_entries()[i]),
            forall|i: int|
                0 <= i < final(self).view_entries().len() ==> old(self).view_entries().contains(
                    #[trigger] final(self).view_entries()[i],
                ),
    {
        let len = self.entries.len();
        let ghost prev = self.entries@;
        let mut i: usize = 0;
        proof {
            assert(prev.subrange(0, len as int) =~= prev);
        }
        while i < len
            invariant
                len == self.entries@.len(),
                i <= len,
                prev == self.entries@,
                old(self).wf(),
                prev == old(self).view_entries(),
                forall|j: int| 0 <= j < i ==> !url_key_eq((#[trigger] prev[j]).0, *url),
                spec_get(prev, *url) == spec_get(prev.subrange(i as int, len as int), *url),
            decreases len - i,
        {
            let ghost rest = prev.subrange(i as int, len as int);
            proof {
                assert(rest[0] == prev[i as int]);
                assert(rest.drop_first() =~= prev.subrange(i + 1, len as int));
            }
            if url_key_equal(&self.entries[i].0, url) {
                self.entries.remove(i);
                proof {
                    let cur = self.entries@;
                    assert(cur =~= prev.remove(i as int));
                    assert forall|p: int, q: int| 0 <= p < q < cur.len() implies #[trigger] url_lt(
                        cur[p].0,
                        cur[q].0,
                    ) by {
                        if q < i {
                        } else if p < i {
                            assert(cur[q] == prev[q + 1]);
                        } else {
                            assert(cur[p] == prev[p + 1] && cur[q] == prev[q + 1]);
                        }
                    }
                    assert forall|j: int| 0 <= j < cur.len() implies !url_key_eq(
                        (#[trigger] cur[j]).0,
                        *url,
                    ) by {
                        if j < i {
                        } else {
                            assert(cur[j] == prev[j + 1]);
                            if url_key_eq(prev[j + 1].0, *url) {
                                assert(url_lt(prev[i as int].0, prev[j + 1].0));
                                lemma_url_lt_total(prev[i as int].0, prev[j + 1].0);
                            }
                        }
                    }
                    assert forall|j: int|
                        0 <= j < prev.len() && !url_key_eq((#[trigger] prev[j]).0, *url) implies cur.contains(
                        prev[j],
                    ) by {
                        if j < i {
                            assert(cur[j] == prev[j]);
                        } else if j > i {
                            assert(cur[j - 1] == prev[j]);
                        }
                    }
                    assert forall|j: int| 0 <= j < cur.len() implies prev.contains(
                        #[trigger] cur[j],
                    ) by {
                        if j < i {
                            assert(cur[j] == prev[j]);
                        } else {
                            assert(cur[j] == prev[j + 1]);
                        }
                    }
                }
                return true;
            }
            i += 1;
        }
        proof {
            assert(prev.subrange(len as int, len as int).len() == 0);
        }
        false
    }
}

/// A well-formed registry never holds two entries with the same
/// (URL, format) key; since every operation preserves well-formedness, this
/// holds after any sequence of upserts and removals.
pub proof fn lemma_map_unique_keys(m: FilterListMap)
    requires
        m.wf(),
    ensures
        forall|i: int, j: int|
            0 <= i < m.view_entries().len() && 0 <= j < m.view_entries().len() && i != j
                ==> !url_key_eq(
                (#[trigger] m.view_entries()[i]).0,
                (#[trigger] m.view_entries()[j]).0,
            ),
{
    assert forall|i: int, j: int|
        0 <= i < m.view_entries().len() && 0 <= j < m.view_entries().len() && i
            != j implies !url_key_eq(
        (#[trigger] m.view_entries()[i]).0,
        (#[trigger] m.view_entries()[j]).0,
    ) by {
        if i < j {
            assert(url_lt(m.view_entries()[i].0, m.view_entries()[j].0));
            lemma_url_lt_total(m.view_entries()[i].0, m.view_entries()[j].0);
        } else {
            assert(url_lt(m.view_entries()[j].0, m.view_entries()[i].0));
            lemma_url_lt_total(m.view_entries()[i].0, m.view_entries()[j].0);
        }
    }
}

} // verus!

