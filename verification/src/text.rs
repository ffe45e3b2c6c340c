//! Byte-level text utilities shared by the format parsers and the registry's
//! key order: line splitting, whitespace trimming, decimal digits, and a
//! total lexicographic order over byte strings.

use vstd::prelude::*;
use vstd::slice::*;

verus! {

/// Whitespace stripped around tokens: space, tab, carriage return.
pub open spec fn is_ws(b: u8) -> bool {
    b == 32 || b == 9 || b == 13
}

/// `s` with leading whitespace removed.
pub open spec fn spec_trim_front(s: Seq<u8>) -> Seq<u8>
    decreases s.len(),
{
    if s.len() > 0 && is_ws(s[0]) {
        spec_trim_front(s.drop_first())
    } else {
        s
    }
}

/// `s` with trailing whitespace removed.
pub open spec fn spec_trim_back(s: Seq<u8>) -> Seq<u8>
    decreases s.len(),
{
    if s.len() > 0 && is_ws(s[s.len() - 1]) {
        spec_trim_back(s.drop_last())
    } else {
        s
    }
}

/// `s` with surrounding whitespace removed.
pub open spec fn spec_trim(s: Seq<u8>) -> Seq<u8> {
    spec_trim_back(spec_trim_front(s))
}

proof fn lemma_trim_front_subrange(s: Seq<u8>, i: int)
    requires
        0 <= i <= s.len(),
        forall|j: int| 0 <= j < i ==> is_ws(s[j]),
        i == s.len() || !is_ws(s[i]),
    ensures
        spec_trim_front(s) == s.subrange(i, s.len() as int),
    decreases i,
{
    if i == 0 {
        assert(s.subrange(0, s.len() as int) =~= s);
    } else {
        assert(is_ws(s[0]));
        lemma_trim_front_subrange(s.drop_first(), i - 1);
        assert(s.drop_first().subrange(i - 1, s.drop_first().len() as int) =~= s.subrange(
            i,
            s.len() as int,
        ));
    }
}

proof fn lemma_trim_back_subrange(s: Seq<u8>, i: int)
    requires
        0 <= i <= s.len(),
        forall|j: int| i <= j < s.len() ==> is_ws(s[j]),
        i == 0 || !is_ws(s[i - 1]),
    ensures
        spec_trim_back(s) == s.subrange(0, i),
    decreases s.len() - i,
{
    if i == s.len() {
        assert(s.subrange(0, s.len() as int) =~= s);
        if s.len() > 0 {
            assert(!is_ws(s[s.len() - 1]));
        }
    } else {
        assert(is_ws(s[s.len() - 1]));
        lemma_trim_back_subrange(s.drop_last(), i);
        assert(s.drop_last().subrange(0, i) =~= s.subrange(0, i));
    }
}

/// Copies `s` without its surrounding whitespace.
pub fn trim(s: &[u8]) -> (r: Vec<u8>)
    ensures
        r@ == spec_trim(s@),
{
    let len = s.len();
    let mut lo: usize = 0;
    while lo < len && is_ws_byte(*slice_index_get(s, lo))
        invariant
            len == s@.len(),
            lo <= len,
            forall|j: int| 0 <= j < lo ==> is_ws(s@[j]),
        decreases len - lo,
    {
        lo += 1;
    }
    proof {
        lemma_trim_front_subrange(s@, lo as int);
    }
    let ghost front = s@.subrange(lo as int, len as int);
    if lo == len {
        proof {
            assert(spec_trim_back(front) =~= front);
            assert(front =~= Seq::<u8>::empty());
        }
        return Vec::new();
    }
    let mut hi: usize = len;
    while hi > lo && is_ws_byte(*slice_index_get(s, hi - 1))
        invariant
            len == s@.len(),
            lo <= hi <= len,
            forall|j: int| hi <= j < len ==> is_ws(s@[j]),
        decreases hi,
    {
        hi -= 1;
    }
    proof {
        assert(!is_ws(s@[lo as int]));
        assert(hi > lo);
        assert forall|j: int| (hi - lo) <= j < front.len() implies is_ws(front[j]) by {
            assert(front[j] == s@[j + lo]);
        }
        assert(!is_ws(front[hi - lo - 1]));
        lemma_trim_back_subrange(front, hi - lo);
    }
    let mut out: Vec<u8> = Vec::new();
    let mut i: usize = lo;
    while i < hi
        invariant
            len == s@.len(),
            lo <= i <= hi <= len,
            out@ =~= s@.subrange(lo as int, i as int),
        decreases hi - i,
    {
        out.push(*slice_index_get(s, i));
        proof {
            assert(out@ =~= s@.subrange(lo as int, i + 1));
        }
        i += 1;
    }
    proof {
        assert(front.subrange(0, hi - lo) =~= s@.subrange(lo as int, hi as int));
    }
    out
}

/// Executable test of the whitespace predicate.
pub fn is_ws_byte(b: u8) -> (r: bool)
    ensures
        r == is_ws(b),
{
    b == 32 || b == 9 || b == 13
}

/// Index of the first occurrence of `sep` in `s`, or -1 when absent.
pub open spec fn spec_find(s: Seq<u8>, sep: u8) -> int
    decreases s.len(),
{
    if s.len() == 0 {
        -1
    } else if s[0] == sep {
        0
    } else {
        let r = spec_find(s.drop_first(), sep);
        if r < 0 {
            -1
        } else {
            r + 1
        }
    }
}

pub proof fn lemma_find_props(s: Seq<u8>, sep: u8)
    ensures
        spec_find(s, sep) >= 0 ==> {
            &&& spec_find(s, sep) < s.len()
            &&& s[spec_find(s, sep)] == sep
            &&& forall|j: int| 0 <= j < spec_find(s, sep) ==> s[j] != sep
        },
        spec_find(s, sep) < 0 ==> forall|j: int| 0 <= j < s.len() ==> s[j] != sep,
    decreases s.len(),
{
    if s.len() > 0 && s[0] != sep {
        lemma_find_props(s.drop_first(), sep);
        let r = spec_find(s.drop_first(), sep);
        if r >= 0 {
            assert(s[r + 1] == s.drop_first()[r]);
            assert forall|j: int| 0 <= j < r + 1 implies s[j] != sep by {
                if j > 0 {
                    assert(s[j] == s.drop_first()[j - 1]);
                }
            }
        } else {
            assert forall|j: int| 0 <= j < s.len() implies s[j] != sep by {
                if j > 0 {
                    assert(s[j] == s.drop_first()[j - 1]);
                }
            }
        }
    }
}

proof fn lemma_find_at(s: Seq<u8>, sep: u8, i: int)
    requires
        0 <= i < s.len(),
        s[i] == sep,
        forall|j: int| 0 <= j < i ==> s[j] != sep,
    ensures
        spec_find(s, sep) == i,
    decreases i,
{
    if i > 0 {
        lemma_find_at(s.drop_first(), sep, i - 1);
    }
}

proof fn lemma_find_absent(s: Seq<u8>, sep: u8)
    requires
        forall|j: int| 0 <= j < s.len() ==> s[j] != sep,
    ensures
        spec_find(s, sep) < 0,
    decreases s.len(),
{
    if s.len() > 0 {
        lemma_find_absent(s.drop_first(), sep);
    }
}

/// First occurrence of `sep` in `s`.
pub fn find_byte(s: &[u8], sep: u8) -> (r: Option<usize>)
    ensures
        match r {
            Some(i) => spec_find(s@, sep) == i as int,
            None => spec_find(s@, sep) < 0,
        },
{
    let len = s.len();
    let mut i: usize = 0;
    while i < len
        invariant
            len == s@.len(),
            i <= len,
            forall|j: int| 0 <= j < i ==> s@[j] != sep,
        decreases len - i,
    {
        if *slice_index_get(s, i) == sep {
            proof {
                lemma_find_at(s@, sep, i as int);
            }
            return Some(i);
        }
        i += 1;
    }
    proof {
        lemma_find_absent(s@, sep);
    }
    None
}

/// `s` split on `sep`: the fields between separators, in order. Empty input
/// has no fields; a trailing separator does not add an empty field.
pub open spec fn spec_split(s: Seq<u8>, sep: u8) -> Seq<Seq<u8>>
    decreases s.len(),
    via spec_split_decreases
{
    if s.len() == 0 {
        Seq::empty()
    } else {
        let i = spec_find(s, sep);
        if i < 0 {
            seq![s]
        } else {
            seq![s.subrange(0, i)] + spec_split(s.subrange(i + 1, s.len() as int), sep)
        }
    }
}

#[via_fn]
proof fn spec_split_decreases(s: Seq<u8>, sep: u8) {
    lemma_find_props(s, sep);
}

/// Splits `s` on `sep`.
pub fn split_on(s: &[u8], sep: u8) -> (r: Vec<Vec<u8>>)
    ensures
        r.deep_view() == spec_split(s@, sep),
{
    let len = s.len();
    let mut out: Vec<Vec<u8>> = Vec::new();
    let mut start: usize = 0;
    proof {
        assert(s@.subrange(0, len as int) =~= s@);
        assert(out.deep_view() =~~= Seq::<Seq<u8>>::empty());
    }
    while start < len
        invariant
            len == s@.len(),
            start <= len,
            spec_split(s@, sep) =~~= out.deep_view() + spec_split(
                s@.subrange(start as int, len as int),
                sep,
            ),
        decreases len - start,
    {
        let ghost rest = s@.subrange(start as int, len as int);
        let ghost prev = out.deep_view();
        let tail = slice_subrange(s, start, len);
        match find_byte(tail, sep) {
            None => {
                out.push(slice_to_vec(tail));
                proof {
                    assert(out.deep_view() =~~= prev + seq![rest]);
                    assert(spec_split(rest, sep) =~= seq![rest]);
                    assert(spec_split(s@.subrange(len as int, len as int), sep)
                        =~= Seq::<Seq<u8>>::empty());
                }
                start = len;
            },
            Some(i) => {
                proof {
                    lemma_find_props(rest, sep);
                }
                let field = slice_subrange(s, start, start + i);
                out.push(slice_to_vec(field));
                proof {
                    assert(field@ =~= rest.subrange(0, i as int));
                    assert(out.deep_view() =~~= prev + seq![rest.subrange(0, i as int)]);
                    assert(s@.subrange(start + i + 1, len as int) =~= rest.subrange(
                        i + 1,
                        rest.len() as int,
                    ));
                }
                start = start + i + 1;
            },
        }
    }
    proof {
        assert(spec_split(s@.subrange(len as int, len as int), sep) =~= Seq::<Seq<u8>>::empty());
        assert(out.deep_view() + Seq::<Seq<u8>>::empty() =~~= out.deep_view());
    }
    out
}

/// ASCII decimal digit.
pub open spec fn is_digit(b: u8) -> bool {
    48 <= b <= 57
}

/// All bytes of `s` are decimal digits.
pub open spec fn all_digits(s: Seq<u8>) -> bool {
    forall|j: int| 0 <= j < s.len() ==> is_digit(s[j])
}

/// Numeric value of a digit string, most significant digit first.
pub open spec fn digits_val(s: Seq<u8>) -> int
    decreases s.len(),
{
    if s.len() == 0 {
        0
    } else {
        digits_val(s.drop_last()) * 10 + (s[s.len() - 1] - 48)
    }
}

/// Value of a short decimal token: one to three digits and nothing else.
/// Longer tokens and non-digit tokens have no value.
pub open spec fn spec_small_decimal(s: Seq<u8>) -> Option<u32> {
    if 1 <= s.len() <= 3 && all_digits(s) {
        Some(digits_val(s) as u32)
    } else {
        None
    }
}

proof fn lemma_digits_val_bound(s: Seq<u8>)
    requires
        all_digits(s),
        s.len() <= 3,
    ensures
        0 <= digits_val(s),
        s.len() <= 1 ==> digits_val(s) <= 9,
        s.len() <= 2 ==> digits_val(s) <= 99,
        digits_val(s) <= 999,
    decreases s.len(),
{
    if s.len() > 0 {
        assert(all_digits(s.drop_last()));
        lemma_digits_val_bound(s.drop_last());
    }
}

/// Parses a short decimal token (used for IPv4 octets and prefix lengths).
pub fn small_decimal(s: &[u8]) -> (r: Option<u32>)
    ensures
        r == spec_small_decimal(s@),
        r is Some ==> 0 <= r->0 <= 999,
{
    let len = s.len();
    if len < 1 || len > 3 {
        return None;
    }
    let mut i: usize = 0;
    let mut val: u32 = 0;
    while i < len
        invariant
            len == s@.len(),
            1 <= len <= 3,
            i <= len,
            all_digits(s@.subrange(0, i as int)),
            val == digits_val(s@.subrange(0, i as int)),
            val <= 999,
        decreases len - i,
    {
        let b = *slice_index_get(s, i);
        if b < 48 || b > 57 {
            proof {
                assert(!is_digit(s@[i as int]));
                assert(!all_digits(s@));
            }
            return None;
        }
        proof {
            lemma_digits_val_bound(s@.subrange(0, i as int));
            assert(s@.subrange(0, i as int).len() <= 2);
        }
        val = val * 10 + (b - 48) as u32;
        proof {
            assert(s@.subrange(0, i + 1).drop_last() =~= s@.subrange(0, i as int));
        }
        i += 1;
    }
    proof {
        assert(s@.subrange(0, len as int) =~= s@);
    }
    Some(val)
}

/// Byte-string equality.
pub fn bytes_eq(a: &[u8], b: &[u8]) -> (r: bool)
    ensures
        r == (a@ == b@),
{
    let alen = a.len();
    if alen != b.len() {
        return false;
    }
    let mut i: usize = 0;
    while i < alen
        invariant
            alen == a@.len(),
            alen == b@.len(),
            i <= alen,
            forall|j: int| 0 <= j < i ==> a@[j] == b@[j],
        decreases alen - i,
    {
        if *slice_index_get(a, i) != *slice_index_get(b, i) {
            return false;
        }
        i += 1;
    }
    proof {
        assert(a@ =~= b@);
    }
    true
}

/// Strict lexicographic order over byte strings: the total order behind the
/// registry's deterministic iteration.
pub open spec fn lex_lt(a: Seq<u8>, b: Seq<u8>) -> bool
    decreases a.len(),
{
    if b.len() == 0 {
        false
    } else if a.len() == 0 {
        true
    } else if a[0] < b[0] {
        true
    } else if a[0] > b[0] {
        false
    } else {
        lex_lt(a.drop_first(), b.drop_first())
    }
}

/// The lexicographic order is total: two byte strings are ordered one way,
/// the other way, or equal, and never two of these at once.
pub proof fn lemma_lex_total(a: Seq<u8>, b: Seq<u8>)
    ensures
        lex_lt(a, b) || lex_lt(b, a) || a == b,
        lex_lt(a, b) ==> !lex_lt(b, a) && a != b,
        lex_lt(b, a) ==> !lex_lt(a, b) && a != b,
    decreases a.len(),
{
    if a.len() > 0 && b.len() > 0 && a[0] == b[0] {
        lemma_lex_total(a.drop_first(), b.drop_first());
        if a.drop_first() == b.drop_first() {
            assert forall|j: int| 0 <= j < a.len() implies a[j] == b[j] by {
                if j > 0 {
                    assert(a[j] == a.drop_first()[j - 1]);
                    assert(b[j] == b.drop_first()[j - 1]);
                }
            }
            assert(a =~= b);
        }
    } else if a.len() == 0 && b.len() == 0 {
        assert(a =~= b);
    }
}

/// The lexicographic order is transitive.
pub proof fn lemma_lex_trans(a: Seq<u8>, b: Seq<u8>, c: Seq<u8>)
    requires
        lex_lt(a, b),
        lex_lt(b, c),
    ensures
        lex_lt(a, c),
    decreases a.len(),
{
    if a.len() > 0 && b.len() > 0 && c.len() > 0 && a[0] == b[0] && b[0] == c[0] {
        lemma_lex_trans(a.drop_first(), b.drop_first(), c.drop_first());
    }
}

/// Decides the lexicographic order.
pub fn lex_less(a: &[u8], b: &[u8]) -> (r: bool)
    ensures
        r == lex_lt(a@, b@),
    decreases a@.len(),
{
    let alen = a.len();
    let blen = b.len();
    let mut i: usize = 0;
    proof {
        assert(a@.subrange(0, alen as int) =~= a@);
        assert(b@.subrange(0, blen as int) =~= b@);
    }
    loop
        invariant
            alen == a@.len(),
            blen == b@.len(),
            i <= alen,
            i <= blen,
            lex_lt(a@, b@) == lex_lt(
                a@.subrange(i as int, alen as int),
                b@.subrange(i as int, blen as int),
            ),
        decreases alen - i,
    {
        let ghost sa = a@.subrange(i as int, alen as int);
        let ghost sb = b@.subrange(i as int, blen as int);
        if i == blen {
            proof {
                assert(sb.len() == 0);
            }
            return false;
        }
        if i == alen {
            proof {
                assert(sa.len() == 0 && sb.len() > 0);
            }
            return true;
        }
        let ba = *slice_index_get(a, i);
        let bb = *slice_index_get(b, i);
        if ba < bb {
            return true;
        }
        if ba > bb {
            return false;
        }
        proof {
            assert(sa[0] == sb[0]);
            assert(sa.drop_first() =~= a@.subrange(i + 1, alen as int));
            assert(sb.drop_first() =~= b@.subrange(i + 1, blen as int));
        }
        i += 1;
    }
}

} // verus!
