//! IP addresses and IP networks in CIDR notation.

use std::str::FromStr;
use vstd::arithmetic::div_mod::lemma_basic_div;
use vstd::arithmetic::power2::{lemma2_to64, lemma_pow2_adds, pow2};
use vstd::bits::{lemma_u128_shr_is_div, lemma_u32_shr_is_div};
use vstd::prelude::*;

verus! {

/// An IP address; an IPv4 address as its 32 bits, an IPv6 address as its 128 bits,
/// most significant bit first.
#[derive(Clone, Copy, Debug, PartialEq, Eq, Structural, Hash)]
pub enum IpAddr {
    V4(u32),
    V6(u128),
}

impl IpAddr {
    /// The IPv4 address `a.b.c.d`.
    pub fn v4(a: u8, b: u8, c: u8, d: u8) -> (r: IpAddr)
        ensures
            r == IpAddr::V4((a * 0x100_0000 + b * 0x1_0000 + c * 0x100 + d) as u32),
    {
        IpAddr::V4((a as u32) * 0x100_0000 + (b as u32) * 0x1_0000 + (c as u32) * 0x100 + (d as u32))
    }

    /// The number of bits of an address of this family.
    pub open spec fn bit_width(self) -> nat {
        match self {
            IpAddr::V4(_) => 32,
            IpAddr::V6(_) => 128,
        }
    }
}

/// An IP network: an address and the length of the prefix that the network
/// fixes. The address is kept as given; it is not truncated to the prefix.
#[derive(Clone, Copy, Debug, PartialEq, Eq, Structural, Hash)]
pub struct IpNet {
    addr: IpAddr,
    prefix_len: u8,
}

/// The text of `net` in CIDR notation, as `ipnet` displays it.
pub uninterp spec fn spec_ip_net_text(net: IpNet) -> Seq<char>;

/// The network that `ipnet` parses from `text`, if the text is one.
pub uninterp spec fn spec_parse_ip_net(text: Seq<char>) -> Option<IpNet>;

impl IpNet {
    /// The prefix length never exceeds the bit width of the address.
    #[verifier::type_invariant]
    pub closed spec fn wf(self) -> bool {
        self.prefix_len <= self.addr.bit_width()
    }

    pub closed spec fn spec_addr(&self) -> IpAddr {
        self.addr
    }

    pub closed spec fn spec_prefix_len(&self) -> u8 {
        self.prefix_len
    }

    /// Whether `ip` lies in this network: the address families agree and the first
    /// `prefix_len` bits of `ip` equal those of the network address.
    pub open spec fn spec_contains(&self, ip: IpAddr) -> bool {
        let p = self.spec_prefix_len();
        match (self.spec_addr(), ip) {
            (IpAddr::V4(n), IpAddr::V4(a)) => p == 0 || (n >> ((32 - p) as u32)) == (a >> ((32 - p) as u32)),
            (IpAddr::V6(n), IpAddr::V6(a)) => p == 0 || (n >> ((128 - p) as u128)) == (a >> ((128 - p) as u128)),
            _ => false,
        }
    }

    /// A network is valid exactly when its prefix length fits its address family.
    pub proof fn lemma_wf(self)
        ensures
            self.wf() <==> self.spec_prefix_len() <= self.spec_addr().bit_width(),
    {
    }

    /// A network is determined by its address and prefix length.
    pub proof fn lemma_ext(self, other: IpNet)
        ensures
            self.spec_addr() == other.spec_addr() && self.spec_prefix_len() == other.spec_prefix_len() ==> self == other,
    {
    }

    /// The network with address `addr` and prefix length `prefix_len`, if the prefix
    /// length fits the address family.
    pub fn new(addr: IpAddr, prefix_len: u8) -> (r: Option<IpNet>)
        ensures
            r is Some <==> prefix_len <= addr.bit_width(),
            r matches Some(net) ==> net.spec_addr() == addr && net.spec_prefix_len() == prefix_len,
    {
        let max: u8 = match addr {
            IpAddr::V4(_) => 32,
            IpAddr::V6(_) => 128,
        };
        if prefix_len <= max {
            Some(IpNet { addr, prefix_len })
        } else {
            None
        }
    }

    /// The network address as given.
    #[verifier::when_used_as_spec(spec_addr)]
    pub fn addr(&self) -> (r: IpAddr)
        ensures
            r == self.spec_addr(),
    {
        self.addr
    }

    /// The length of the prefix.
    #[verifier::when_used_as_spec(spec_prefix_len)]
    pub fn prefix_len(&self) -> (r: u8)
        ensures
            r == self.spec_prefix_len(),
            r <= self.spec_addr().bit_width(),
    {
        proof {
            use_type_invariant(self);
        }
        self.prefix_len
    }

    /// Does this network contain the address `ip`?
    pub fn contains(&self, ip: &IpAddr) -> (r: bool)
        ensures
            r == self.spec_contains(*ip),
    {
        proof {
            use_type_invariant(self);
        }
        match (self.addr, *ip) {
            (IpAddr::V4(n), IpAddr::V4(a)) => {
                if self.prefix_len == 0 {
                    true
                } else {
                    let shift: u32 = 32 - self.prefix_len as u32;
                    (n >> shift) == (a >> shift)
                }
            },
            (IpAddr::V6(n), IpAddr::V6(a)) => {
                if self.prefix_len == 0 {
                    true
                } else {
                    let shift: u128 = 128 - self.prefix_len as u128;
                    (n >> shift) == (a >> shift)
                }
            },
            _ => false,
        }
    }

    /// Parses a network in CIDR notation, such as `10.0.0.0/16` or `fd00::/8`.
    pub fn parse(text: &str) -> (r: Option<IpNet>)
        ensures
            r == spec_parse_ip_net(text@),
            forall|net: IpNet| net.wf() && text@ == spec_ip_net_text(net) ==> r == Some(net),
            displayed_text_parses_back(text@),
    {
        match parse_ip_net_text(text) {
            Ok(net) => Some(net),
            Err(_) => None,
        }
    }

    /// The network in CIDR notation, such as `10.0.0.0/16`.
    pub fn to_text(&self) -> (r: String)
        ensures
            r@ == spec_ip_net_text(*self),
    {
        ip_net_text(self)
    }
}

/// A text that is displayed for a valid network parses back to that network.
pub open spec fn displayed_text_parses_back(text: Seq<char>) -> bool {
    forall|net: IpNet| net.wf() && text == spec_ip_net_text(net) ==> spec_parse_ip_net(text) == Some(net)
}

/// `r` is the network `net` whenever `text` is the text displayed for a valid `net`.
pub open spec fn parsed_back(text: Seq<char>, r: Result<IpNet, ipnet::AddrParseError>) -> bool {
    forall|net: IpNet| net.wf() && text == spec_ip_net_text(net) ==> r == Ok::<IpNet, ipnet::AddrParseError>(net)
}

#[verifier::external_type_specification]
#[verifier::external_body]
pub struct ExAddrParseError(ipnet::AddrParseError);

/// Calls `<ipnet::IpNet as FromStr>::from_str` and hands back the address and prefix
/// length of what it parsed. The result is named `spec_parse_ip_net`; besides that,
/// the contract claims that the text `ipnet` displays for a network parses back to
/// that network.
#[verifier::external_body]
fn parse_ip_net_text(text: &str) -> (r: Result<IpNet, ipnet::AddrParseError>)
    ensures
        r is Ok <==> spec_parse_ip_net(text@) is Some,
        r matches Ok(net) ==> spec_parse_ip_net(text@) == Some(net),
        parsed_back(text@, r),
{
    match ipnet::IpNet::from_str(text) {
        Ok(ipnet::IpNet::V4(n)) => Ok(IpNet { addr: IpAddr::V4(u32::from(n.addr())), prefix_len: n.prefix_len() }),
        Ok(ipnet::IpNet::V6(n)) => Ok(IpNet { addr: IpAddr::V6(u128::from(n.addr())), prefix_len: n.prefix_len() }),
        Err(e) => Err(e),
    }
}

/// Calls the `Display` impl of `ipnet::IpNet` on the network built from the address
/// and prefix length; the text is named `spec_ip_net_text`.
#[verifier::external_body]
fn ip_net_text(net: &IpNet) -> (r: String)
    ensures
        r@ == spec_ip_net_text(*net),
{
    match net.addr {
        IpAddr::V4(bits) => ipnet::IpNet::V4(ipnet::Ipv4Net::new_assert(bits.into(), net.prefix_len)).to_string(),
        IpAddr::V6(bits) => ipnet::IpNet::V6(ipnet::Ipv6Net::new_assert(bits.into(), net.prefix_len)).to_string(),
    }
}

/// The aligned block of addresses that a network covers: an address lies in a valid
/// network exactly when the families agree and the address falls in the same block of
/// `2^(width - prefix_len)` consecutive addresses as the network address, that is,
/// when dividing both by `2^(width - prefix_len)` gives the same quotient. This holds
/// for every prefix length from 0 to the width of the family.
pub proof fn lemma_contains_same_block(net: IpNet, ip: IpAddr)
    requires
        net.wf(),
    ensures
        net.spec_contains(ip) <==> match (net.spec_addr(), ip) {
            (IpAddr::V4(n), IpAddr::V4(a)) => n as nat / pow2((32 - net.spec_prefix_len()) as nat) == a as nat / pow2(
                (32 - net.spec_prefix_len()) as nat,
            ),
            (IpAddr::V6(n), IpAddr::V6(a)) => n as nat / pow2((128 - net.spec_prefix_len()) as nat) == a as nat
                / pow2((128 - net.spec_prefix_len()) as nat),
            _ => false,
        },
{
    let p = net.spec_prefix_len();
    match (net.spec_addr(), ip) {
        (IpAddr::V4(n), IpAddr::V4(a)) => {
            assert(p <= 32);
            if p == 0 {
                lemma2_to64();
                lemma_basic_div(n as int, pow2(32) as int);
                lemma_basic_div(a as int, pow2(32) as int);
            } else {
                lemma_u32_shr_is_div(n, (32 - p) as u32);
                lemma_u32_shr_is_div(a, (32 - p) as u32);
            }
        },
        (IpAddr::V6(n), IpAddr::V6(a)) => {
            assert(p <= 128);
            if p == 0 {
                lemma2_to64();
                lemma_pow2_adds(64, 64);
                assert(pow2(128) == 0x1_0000_0000_0000_0000_0000_0000_0000_0000nat) by (nonlinear_arith)
                    requires
                        pow2(128) == pow2(64) * pow2(64),
                        pow2(64) == 0x1_0000_0000_0000_0000nat,
                ;
                lemma_basic_div(n as int, pow2(128) as int);
                lemma_basic_div(a as int, pow2(128) as int);
            } else {
                lemma_u128_shr_is_div(n, (128 - p) as u128);
                lemma_u128_shr_is_div(a, (128 - p) as u128);
            }
        },
        _ => {},
    }
}

} // verus!
