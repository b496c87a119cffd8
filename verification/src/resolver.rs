//! The resolver: port strings to port numbers, and host strings to
//! addresses, given the outcome of any name lookup the caller performed.

use vstd::prelude::*;
use crate::decimal::{all_dec_digits, dec_value, is_dec_digit};
use crate::ip::{is_v4_literal, parse_v4_literal, v4_literal_value, IpAddress};

verus! {

/// Why a host string could not be turned into an address.
#[derive(Clone, Copy, Debug, PartialEq, Eq, Structural)]
pub enum ResolveHostError {
    /// The name could not be resolved at the network layer.
    HostResolution,
    /// Resolution succeeded but yielded no address.
    NoAddress,
}

impl ResolveHostError {
    /// The message reported to the user for this error.
    pub fn message(&self) -> (r: &'static str)
        ensures
            *self == ResolveHostError::HostResolution ==> r@ == "Could not resolve hostname."@,
            *self == ResolveHostError::NoAddress ==> r@ == "Could not get ip."@,
    {
        match *self {
            ResolveHostError::HostResolution => "Could not resolve hostname.",
            ResolveHostError::NoAddress => "Could not get ip.",
        }
    }
}

/// What a name lookup performed by the caller came back with: failure at
/// the network layer, or a list of addresses in the resolver's order.
pub enum HostLookup {
    Failed,
    Addresses(Vec<IpAddress>),
}

/// Why a port string was rejected.
#[derive(Clone, Copy, Debug, PartialEq, Eq, Structural)]
pub enum ResolvePortError {
    /// The text is not a base-10 unsigned integer.
    InvalidFormat,
    /// The text is a number, but outside the 16-bit port range.
    OutOfRange,
}

impl ResolvePortError {
    /// The message reported to the user for this error.
    pub fn message(&self) -> (r: &'static str)
        ensures
            *self == ResolvePortError::InvalidFormat ==> r@ == "Invalid port."@,
            *self == ResolvePortError::OutOfRange ==> r@ == "Port out of range."@,
    {
        match *self {
            ResolvePortError::InvalidFormat => "Invalid port.",
            ResolvePortError::OutOfRange => "Port out of range.",
        }
    }
}

/// The digits of a port string: an optional leading `'+'` sign is accepted
/// and stripped.
pub open spec fn port_digits(s: Seq<char>) -> Seq<char> {
    if s.len() > 0 && s[0] == '+' {
        s.drop_first()
    } else {
        s
    }
}

/// `s` is a well-formed port string: at least one digit after the optional
/// sign, and digits throughout.
pub open spec fn is_port_literal(s: Seq<char>) -> bool {
    port_digits(s).len() > 0 && all_dec_digits(port_digits(s))
}

/// The number a well-formed port string denotes.
pub open spec fn port_value(s: Seq<char>) -> int {
    dec_value(port_digits(s))
}

/// Parse a base-10 port number in `[0, 65535]`.
///
/// A string that is not an unsigned integer is rejected as `InvalidFormat`;
/// one that is a number but too large for a port is rejected as
/// `OutOfRange`.
pub fn resolve_port(port_str: &str) -> (r: Result<u16, ResolvePortError>)
    ensures
        !is_port_literal(port_str@) ==> r == Err::<u16, ResolvePortError>(
            ResolvePortError::InvalidFormat,
        ),
        is_port_literal(port_str@) && port_value(port_str@) > 65535 ==> r == Err::<
            u16,
            ResolvePortError,
        >(ResolvePortError::OutOfRange),
        is_port_literal(port_str@) && port_value(port_str@) <= 65535 ==> r == Ok::<
            u16,
            ResolvePortError,
        >(port_value(port_str@) as u16),
{
    let ghost s = port_str@;
    let n = port_str.unicode_len();
    let mut start: usize = 0;
    if n > 0 && port_str.get_char(0) == '+' {
        start = 1;
    }
    let ghost digits = port_digits(s);
    proof {
        assert(digits =~= s.subrange(start as int, n as int));
    }
    if start >= n {
        return Err(ResolvePortError::InvalidFormat);
    }
    let mut acc: u32 = 0;
    let mut too_big = false;
    let mut i: usize = start;
    while i < n
        invariant
            start <= i <= n,
            n == s.len(),
            s == port_str@,
            digits == port_digits(s),
            digits =~= s.subrange(start as int, n as int),
            all_dec_digits(s.subrange(start as int, i as int)),
            !too_big ==> acc <= 655359 && acc == dec_value(s.subrange(start as int, i as int)),
            too_big ==> dec_value(s.subrange(start as int, i as int)) > 65535,
        decreases n - i,
    {
        let c = port_str.get_char(i);
        let u = c as u32;
        if u < 48 || u > 57 {
            proof {
                assert(digits[i - start] == s[i as int]);
                assert(!is_dec_digit(s[i as int]));
            }
            return Err(ResolvePortError::InvalidFormat);
        }
        let ghost prefix = s.subrange(start as int, i as int);
        let ghost extended = s.subrange(start as int, i as int + 1);
        proof {
            assert(extended =~= prefix.push(s[i as int]));
            assert(extended.drop_last() =~= prefix);
            assert(extended.last() == s[i as int]);
        }
        if too_big || acc > 65535 {
            too_big = true;
        } else {
            acc = acc * 10 + (u - 48);
        }
        i += 1;
    }
    proof {
        assert(s.subrange(start as int, n as int) =~= digits);
    }
    if too_big || acc > 65535 {
        Err(ResolvePortError::OutOfRange)
    } else {
        Ok(acc as u16)
    }
}

/// What `resolve_host` returns: an IPv4 literal denotes itself and needs no
/// lookup; any other host string stands or falls with the lookup, which
/// must yield at least one address, the first of which is taken.
pub open spec fn spec_resolve_host(s: Seq<char>, lookup: HostLookup) -> Result<
    IpAddress,
    ResolveHostError,
> {
    if is_v4_literal(s) {
        Ok(v4_literal_value(s))
    } else {
        match lookup {
            HostLookup::Failed => Err(ResolveHostError::HostResolution),
            HostLookup::Addresses(addrs) => if addrs@.len() == 0 {
                Err(ResolveHostError::NoAddress)
            } else {
                Ok(addrs@[0])
            },
        }
    }
}

/// Turn a host string into one address. `lookup` is the outcome of the name
/// lookup the caller performed for this host; it is consulted only when the
/// host is not an address literal.
pub fn resolve_host(host: &str, lookup: &HostLookup) -> (r: Result<IpAddress, ResolveHostError>)
    ensures
        r == spec_resolve_host(host@, *lookup),
{
    match parse_v4_literal(host) {
        Some(ip) => Ok(ip),
        None => match lookup {
            HostLookup::Failed => Err(ResolveHostError::HostResolution),
            HostLookup::Addresses(addrs) => {
                if addrs.len() == 0 {
                    Err(ResolveHostError::NoAddress)
                } else {
                    Ok(addrs[0])
                }
            },
        },
    }
}

/// An address literal resolves to the address it spells, whatever any
/// lookup came back with: literal hosts never depend on the network.
pub proof fn lemma_literal_host_needs_no_lookup(s: Seq<char>, l1: HostLookup, l2: HostLookup)
    requires
        is_v4_literal(s),
    ensures
        spec_resolve_host(s, l1) == spec_resolve_host(s, l2),
        spec_resolve_host(s, l1) == Ok::<IpAddress, ResolveHostError>(v4_literal_value(s)),
{
}

} // verus!
