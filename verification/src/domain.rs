//! Domain-name validation and suffix matching: the target predicates behind
//! exact-domain and domain-suffix rules.

use vstd::prelude::*;
use vstd::slice::*;
use crate::text::bytes_eq;

verus! {

/// A byte a domain name may contain: ASCII letters, digits, hyphen, dot.
pub open spec fn is_domain_byte(b: u8) -> bool {
    (48 <= b <= 57) || (65 <= b <= 90) || (97 <= b <= 122) || b == 45 || b == 46
}

/// Syntactic validity of a domain name: non-empty, at most 253 bytes, only
/// domain bytes, no leading or trailing dot and no empty label.
pub open spec fn valid_domain(s: Seq<u8>) -> bool {
    &&& 1 <= s.len() <= 253
    &&& forall|j: int| 0 <= j < s.len() ==> is_domain_byte(s[j])
    &&& s[0] != 46
    &&& s[s.len() - 1] != 46
    &&& forall|j: int| 0 <= j < s.len() - 1 ==> !((#[trigger] s[j]) == 46 && s[j + 1] == 46)
}

/// Executable test of the domain-byte predicate.
pub fn is_domain_byte_exec(b: u8) -> (r: bool)
    ensures
        r == is_domain_byte(b),
{
    (48 <= b && b <= 57) || (65 <= b && b <= 90) || (97 <= b && b <= 122) || b == 45 || b == 46
}

/// Decides domain-name validity.
pub fn is_valid_domain(s: &[u8]) -> (r: bool)
    ensures
        r == valid_domain(s@),
{
    let len = s.len();
    if len < 1 || len > 253 {
        return false;
    }
    if *slice_index_get(s, 0) == 46 || *slice_index_get(s, len - 1) == 46 {
        return false;
    }
    let mut i: usize = 0;
    while i < len
        invariant
            len == s@.len(),
            i <= len,
            forall|j: int| 0 <= j < i ==> is_domain_byte(s@[j]),
            forall|j: int| 0 <= j < i - 1 ==> !((#[trigger] s@[j]) == 46 && s@[j + 1] == 46),
        decreases len - i,
    {
        let b = *slice_index_get(s, i);
        if !is_domain_byte_exec(b) {
            return false;
        }
        if i > 0 && b == 46 && *slice_index_get(s, i - 1) == 46 {
            return false;
        }
        i += 1;
    }
    true
}

/// Whether domain `d` is `sfx` itself or a subdomain of it: `d` ends with
/// `sfx` at a label boundary.
pub open spec fn suffix_match(d: Seq<u8>, sfx: Seq<u8>) -> bool {
    ||| d == sfx
    ||| (d.len() > sfx.len() && d.subrange(d.len() - sfx.len(), d.len() as int) == sfx && d[d.len()
        - sfx.len() - 1] == 46)
}

/// Decides the domain-suffix relation.
pub fn is_suffix_match(d: &[u8], sfx: &[u8]) -> (r: bool)
    ensures
        r == suffix_match(d@, sfx@),
{
    let dlen = d.len();
    let slen = sfx.len();
    if dlen == slen {
        let eq = bytes_eq(d, sfx);
        proof {
            if !eq {
                assert(!suffix_match(d@, sfx@));
            }
        }
        return eq;
    }
    if dlen < slen {
        proof {
            assert(d@ != sfx@);
        }
        return false;
    }
    if *slice_index_get(d, dlen - slen - 1) != 46 {
        proof {
            assert(d@ != sfx@);
        }
        return false;
    }
    let tail = slice_subrange(d, dlen - slen, dlen);
    let eq = bytes_eq(tail, sfx);
    proof {
        assert(tail@ =~= d@.subrange(d@.len() - sfx@.len(), d@.len() as int));
        assert(d@ != sfx@);
    }
    eq
}

} // verus!
