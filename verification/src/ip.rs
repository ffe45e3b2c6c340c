//! IP networks in plain form: an address as an integer, a prefix length and
//! an address-family flag. Host addresses are carried as networks with a
//! full-length prefix, so exact-IP storage and CIDR-style queries coincide.
//! Includes the textual IPv4 and CIDR parsers used by the list formats.

use vstd::prelude::*;
use crate::text::{spec_split, spec_small_decimal, split_on, small_decimal};

verus! {

/// Two to the power `e`.
pub open spec fn p2(e: nat) -> nat
    decreases e,
{
    if e == 0 {
        1nat
    } else {
        2 * p2((e - 1) as nat)
    }
}

pub proof fn lemma_p2_pos(e: nat)
    ensures
        p2(e) >= 1,
    decreases e,
{
    if e > 0 {
        lemma_p2_pos((e - 1) as nat);
    }
}

pub proof fn lemma_p2_mono(a: nat, b: nat)
    requires
        a <= b,
    ensures
        p2(a) <= p2(b),
    decreases b,
{
    if a < b {
        lemma_p2_mono(a, (b - 1) as nat);
        lemma_p2_pos((b - 1) as nat);
    }
}

proof fn lemma_p2_adds(a: nat, b: nat)
    ensures
        p2(a + b) == p2(a) * p2(b),
    decreases a,
{
    if a > 0 {
        lemma_p2_adds((a - 1) as nat, b);
        let x = p2((a - 1) as nat);
        assert(p2(a + b) == 2 * p2((a - 1) as nat + b));
        assert(p2(a + b) == 2 * (x * p2(b)));
        assert(p2(a) == 2 * x);
        assert(p2(a + b) == p2(a) * p2(b)) by (nonlinear_arith)
            requires
                p2(a + b) == 2 * (x * p2(b)),
                p2(a) == 2 * x,
        ;
    } else {
        assert(p2(a + b) == p2(b));
        assert(p2(a) == 1);
        assert(p2(a) * p2(b) == p2(b)) by (nonlinear_arith)
            requires
                p2(a) == 1,
        ;
    }
}

/// Concrete values of the powers the address logic needs.
pub proof fn lemma_p2_values()
    ensures
        p2(8) == 0x100,
        p2(16) == 0x10000,
        p2(32) == 0x100000000,
        p2(64) == 0x10000000000000000,
        p2(128) == 0x100000000000000000000000000000000,
{
    assert(p2(0) == 1);
    assert(p2(1) == 2);
    assert(p2(2) == 4);
    assert(p2(3) == 8);
    assert(p2(4) == 16);
    assert(p2(5) == 32);
    assert(p2(6) == 64);
    assert(p2(7) == 128);
    assert(p2(8) == 256);
    lemma_p2_adds(8, 8);
    assert(p2(16) == 0x10000) by (nonlinear_arith)
        requires
            p2(16) == p2(8) * p2(8),
            p2(8) == 0x100,
    ;
    lemma_p2_adds(16, 16);
    assert(p2(32) == 0x100000000) by (nonlinear_arith)
        requires
            p2(32) == p2(16) * p2(16),
            p2(16) == 0x10000,
    ;
    lemma_p2_adds(32, 32);
    assert(p2(64) == 0x10000000000000000) by (nonlinear_arith)
        requires
            p2(64) == p2(32) * p2(32),
            p2(32) == 0x100000000,
    ;
    lemma_p2_adds(64, 64);
    assert(p2(128) == 0x100000000000000000000000000000000) by (nonlinear_arith)
        requires
            p2(128) == p2(64) * p2(64),
            p2(64) == 0x10000000000000000,
    ;
}

/// An IP network: `addr` is the (possibly unmasked) address, `prefix` the
/// number of leading bits that matter, `v6` the address family.
#[derive(Debug, Copy, Clone, PartialEq, Eq, Hash, Structural)]
pub struct IpNet {
    pub addr: u128,
    pub prefix: u8,
    pub v6: bool,
}

/// Address-family width in bits.
pub open spec fn fam_bits(v6: bool) -> nat {
    if v6 {
        128nat
    } else {
        32nat
    }
}

impl IpNet {
    /// Structural validity: the prefix fits the family and a v4 address
    /// fits in 32 bits.
    pub open spec fn wf(self) -> bool {
        &&& self.prefix as nat <= fam_bits(self.v6)
        &&& (!self.v6 ==> self.addr < 0x100000000)
    }

    /// A host address as a network with a full-length prefix.
    pub fn host(addr: u128, v6: bool) -> (r: IpNet)
        requires
            !v6 ==> addr < 0x100000000,
        ensures
            r == (IpNet { addr, prefix: if v6 { 128u8 } else { 32u8 }, v6 }),
            r.wf(),
    {
        IpNet { addr, prefix: if v6 { 128 } else { 32 }, v6 }
    }
}

/// Whether address `(addr, v6)` lies in network `net`: same family and the
/// two addresses agree on the network's prefix (compared by flooring away
/// the host bits).
pub open spec fn net_contains(net: IpNet, addr: u128, v6: bool) -> bool {
    &&& net.v6 == v6
    &&& addr as nat / p2((fam_bits(v6) - net.prefix) as nat) == net.addr as nat / p2(
        (fam_bits(v6) - net.prefix) as nat,
    )
}

/// Two to the power `e`, executably.
pub fn p2_u128(e: u8) -> (r: u128)
    requires
        e < 128,
    ensures
        r as nat == p2(e as nat),
{
    let mut i: u8 = 0;
    let mut r: u128 = 1;
    while i < e
        invariant
            i <= e,
            e < 128,
            r as nat == p2(i as nat),
        decreases e - i,
    {
        proof {
            lemma_p2_mono(i as nat, 126);
            lemma_p2_values();
            lemma_p2_adds(63, 63);
            lemma_p2_adds(126, 1);
        }
        r = r * 2;
        i = i + 1;
    }
    r
}

/// Decides network containment.
pub fn contains_addr(net: &IpNet, addr: u128, v6: bool) -> (r: bool)
    requires
        net.wf(),
        !v6 ==> addr < 0x100000000,
    ensures
        r == net_contains(*net, addr, v6),
{
    if net.v6 != v6 {
        return false;
    }
    let bits: u8 = if v6 { 128 } else { 32 };
    if net.prefix == 0 {
        proof {
            lemma_p2_values();
            assert((addr as nat) < p2(fam_bits(v6)));
            assert((net.addr as nat) < p2(fam_bits(v6)));
            assert(addr as nat / p2(fam_bits(v6)) == 0);
            assert(net.addr as nat / p2(fam_bits(v6)) == 0);
        }
        return true;
    }
    let div = p2_u128(bits - net.prefix);
    proof {
        lemma_p2_pos((bits - net.prefix) as nat);
    }
    addr / div == net.addr / div
}

/// The textual form of an IPv4 address: exactly four dot-separated decimal
/// octets, each at most 255, with no trailing dot.
pub open spec fn spec_parse_ipv4(s: Seq<u8>) -> Option<u32> {
    let parts = spec_split(s, 46);
    if s.len() > 0 && s[s.len() - 1] != 46 && parts.len() == 4 && (forall|j: int|
        0 <= j < 4 ==> is_octet(#[trigger] parts[j])) {
        Some(
            (octet_val(parts[0]) * 0x1000000 + octet_val(parts[1]) * 0x10000 + octet_val(parts[2])
                * 0x100 + octet_val(parts[3])) as u32,
        )
    } else {
        None
    }
}

/// A decimal token that denotes one IPv4 octet.
pub open spec fn is_octet(p: Seq<u8>) -> bool {
    match spec_small_decimal(p) {
        Some(v) => v <= 255,
        None => false,
    }
}

/// The octet's numeric value.
pub open spec fn octet_val(p: Seq<u8>) -> int {
    spec_small_decimal(p)->0 as int
}

/// Parses a dotted-quad IPv4 address.
pub fn parse_ipv4(s: &[u8]) -> (r: Option<u32>)
    ensures
        r == spec_parse_ipv4(s@),
{
    let len = s.len();
    if len == 0 {
        return None;
    }
    if s[len - 1] == 46 {
        return None;
    }
    let parts = split_on(s, 46);
    proof {
        assert(parts.deep_view() == spec_split(s@, 46));
    }
    if parts.len() != 4 {
        return None;
    }
    let mut octs: [u32; 4] = [0, 0, 0, 0];
    let mut i: usize = 0;
    while i < 4
        invariant
            parts.deep_view() == spec_split(s@, 46),
            parts@.len() == 4,
            i <= 4,
            forall|j: int|
                0 <= j < i ==> is_octet(#[trigger] spec_split(s@, 46)[j]) && octs[j] == octet_val(
                    spec_split(s@, 46)[j],
                ),
        decreases 4 - i,
    {
        let part: &Vec<u8> = &parts[i];
        proof {
            assert(part@ =~= spec_split(s@, 46)[i as int]);
        }
        match small_decimal(part.as_slice()) {
            Some(v) if v <= 255 => {
                octs[i] = v;
            },
            _ => {
                proof {
                    assert(!is_octet(spec_split(s@, 46)[i as int]));
                }
                return None;
            },
        }
        i += 1;
    }
    Some(octs[0] * 0x1000000 + octs[1] * 0x10000 + octs[2] * 0x100 + octs[3])
}

/// The textual form of an IPv4 CIDR network: an IPv4 address, a slash, and
/// a decimal prefix length of at most 32.
pub open spec fn spec_parse_ipv4_net(s: Seq<u8>) -> Option<IpNet> {
    let parts = spec_split(s, 47);
    if s.len() > 0 && s[s.len() - 1] != 47 && parts.len() == 2 && spec_parse_ipv4(
        parts[0],
    ) is Some && spec_small_decimal(parts[1]) is Some && spec_small_decimal(parts[1])->0 <= 32 {
        Some(
            IpNet {
                addr: spec_parse_ipv4(parts[0])->0 as u128,
                prefix: spec_small_decimal(parts[1])->0 as u8,
                v6: false,
            },
        )
    } else {
        None
    }
}

/// Parses a CIDR network, rejecting malformed addresses and masks.
pub fn parse_ipv4_net(s: &[u8]) -> (r: Option<IpNet>)
    ensures
        r == spec_parse_ipv4_net(s@),
        r is Some ==> r->0.wf(),
{
    let len = s.len();
    if len == 0 {
        return None;
    }
    if s[len - 1] == 47 {
        return None;
    }
    let parts = split_on(s, 47);
    proof {
        assert(parts.deep_view() == spec_split(s@, 47));
    }
    if parts.len() != 2 {
        return None;
    }
    proof {
        assert(parts@[0]@ =~= spec_split(s@, 47)[0]);
        assert(parts@[1]@ =~= spec_split(s@, 47)[1]);
    }
    let addr = match parse_ipv4(parts[0].as_slice()) {
        Some(a) => a,
        None => {
            return None;
        },
    };
    let prefix = match small_decimal(parts[1].as_slice()) {
        Some(p) if p <= 32 => p,
        _ => {
            return None;
        },
    };
    Some(IpNet { addr: addr as u128, prefix: prefix as u8, v6: false })
}

} // verus!
