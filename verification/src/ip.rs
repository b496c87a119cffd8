//! IP addresses as plain numbers, and the grammar of IPv4 literals in
//! dotted-quad form.

use vstd::prelude::*;
use crate::decimal::{all_dec_digits, dec_value, is_dec_digit, lemma_dec_value_bounds, pow10};

verus! {

/// An IP address: four octets for v4, eight 16-bit groups for v6.
#[derive(Clone, Copy, Debug, PartialEq, Eq, Structural)]
pub enum IpAddress {
    V4(u8, u8, u8, u8),
    V6(u16, u16, u16, u16, u16, u16, u16, u16),
}

/// `s` is one octet of a dotted-quad literal: one to three digits, no
/// leading zero, value at most 255.
pub open spec fn is_v4_octet(s: Seq<char>) -> bool {
    &&& 1 <= s.len() <= 3
    &&& all_dec_digits(s)
    &&& (s.len() > 1 ==> s[0] != '0')
    &&& dec_value(s) <= 255
}

/// The dots of a dotted-quad literal stand exactly at `i < j < k`, and the
/// four pieces between them are octets.
pub open spec fn v4_split_at(s: Seq<char>, i: int, j: int, k: int) -> bool {
    &&& 0 <= i < j < k < s.len()
    &&& s[i] == '.'
    &&& s[j] == '.'
    &&& s[k] == '.'
    &&& is_v4_octet(s.subrange(0, i))
    &&& is_v4_octet(s.subrange(i + 1, j))
    &&& is_v4_octet(s.subrange(j + 1, k))
    &&& is_v4_octet(s.subrange(k + 1, s.len() as int))
}

/// The address denoted by a literal split at dots `i < j < k`.
pub open spec fn v4_fields(s: Seq<char>, i: int, j: int, k: int) -> IpAddress {
    IpAddress::V4(
        dec_value(s.subrange(0, i)) as u8,
        dec_value(s.subrange(i + 1, j)) as u8,
        dec_value(s.subrange(j + 1, k)) as u8,
        dec_value(s.subrange(k + 1, s.len() as int)) as u8,
    )
}

/// `s` is an IPv4 literal in dotted-quad form.
pub open spec fn is_v4_literal(s: Seq<char>) -> bool {
    exists|i: int, j: int, k: int| v4_split_at(s, i, j, k)
}

/// The address an IPv4 literal denotes. Well defined because the split of a
/// literal is unique (`lemma_v4_split_unique`).
pub open spec fn v4_literal_value(s: Seq<char>) -> IpAddress
    recommends
        is_v4_literal(s),
{
    let (i, j, k) = choose|i: int, j: int, k: int| v4_split_at(s, i, j, k);
    v4_fields(s, i, j, k)
}

/// The positions `i < j < k` carry dots and nothing else in `s` does.
pub open spec fn dots_exactly_at(s: Seq<char>, i: int, j: int, k: int) -> bool {
    &&& 0 <= i < j < k < s.len()
    &&& forall|p: int| 0 <= p < s.len() ==> (s[p] == '.' <==> p == i || p == j || p == k)
}

/// In a split literal, the three split points are the only dots: every other
/// position lies inside an octet, and octets hold digits only.
pub proof fn lemma_v4_split_dots(s: Seq<char>, i: int, j: int, k: int)
    requires
        v4_split_at(s, i, j, k),
    ensures
        dots_exactly_at(s, i, j, k),
{
    assert forall|p: int| 0 <= p < s.len() && !(p == i || p == j || p == k)
        implies s[p] != '.' by {
        if p < i {
            assert(s.subrange(0, i)[p] == s[p]);
            assert(is_dec_digit(s[p]));
        } else if p < j {
            assert(s.subrange(i + 1, j)[p - (i + 1)] == s[p]);
            assert(is_dec_digit(s[p]));
        } else if p < k {
            assert(s.subrange(j + 1, k)[p - (j + 1)] == s[p]);
            assert(is_dec_digit(s[p]));
        } else {
            assert(s.subrange(k + 1, s.len() as int)[p - (k + 1)] == s[p]);
            assert(is_dec_digit(s[p]));
        }
        assert('.' as u32 == 46);
    }
}

/// Two descriptions of where all the dots of `s` stand agree.
pub proof fn lemma_dots_unique(s: Seq<char>, i1: int, j1: int, k1: int, i2: int, j2: int, k2: int)
    requires
        dots_exactly_at(s, i1, j1, k1),
        dots_exactly_at(s, i2, j2, k2),
    ensures
        i1 == i2 && j1 == j2 && k1 == k2,
{
    assert(s[i1] == '.' && s[j1] == '.' && s[k1] == '.');
    assert(s[i2] == '.' && s[j2] == '.' && s[k2] == '.');
}

/// A dotted-quad literal splits at only one triple of dot positions.
pub proof fn lemma_v4_split_unique(s: Seq<char>, i1: int, j1: int, k1: int, i2: int, j2: int, k2: int)
    requires
        v4_split_at(s, i1, j1, k1),
        v4_split_at(s, i2, j2, k2),
    ensures
        i1 == i2 && j1 == j2 && k1 == k2,
{
    lemma_v4_split_dots(s, i1, j1, k1);
    lemma_v4_split_dots(s, i2, j2, k2);
    lemma_dots_unique(s, i1, j1, k1, i2, j2, k2);
}

/// Check that the characters of `v` between `from` and `to` form one octet
/// of a dotted-quad literal, and return its value.
fn check_octet(v: &Vec<char>, from: usize, to: usize) -> (r: Option<u8>)
    requires
        from <= to <= v@.len(),
    ensures
        r.is_some() <==> is_v4_octet(v@.subrange(from as int, to as int)),
        r matches Some(x) ==> x as int == dec_value(v@.subrange(from as int, to as int)),
{
    let ghost seg = v@.subrange(from as int, to as int);
    let len = to - from;
    if len < 1 || len > 3 {
        return None;
    }
    let mut val: u32 = 0;
    let mut p = from;
    while p < to
        invariant
            from <= p <= to <= v@.len(),
            to - from <= 3,
            seg == v@.subrange(from as int, to as int),
            all_dec_digits(v@.subrange(from as int, p as int)),
            val == dec_value(v@.subrange(from as int, p as int)),
            0 <= val < 1000,
        decreases to - p,
    {
        let c = v[p];
        let u = c as u32;
        if u < 48 || u > 57 {
            proof {
                assert(seg[p - from] == v@[p as int]);
            }
            return None;
        }
        let ghost prefix = v@.subrange(from as int, p as int);
        let ghost ext = v@.subrange(from as int, p as int + 1);
        proof {
            assert(ext.drop_last() =~= prefix);
            assert(ext.last() == v@[p as int]);
            lemma_dec_value_bounds(prefix);
            assert(pow10(0) == 1);
            assert(pow10(1) == 10);
            assert(pow10(2) == 100);
            assert(prefix.len() <= 2);
            assert(val < 100);
        }
        val = val * 10 + (u - 48);
        p += 1;
    }
    if len > 1 && v[from] == '0' {
        proof {
            assert(seg[0] == v@[from as int]);
        }
        return None;
    }
    if val > 255 {
        return None;
    }
    proof {
        assert(seg.len() == to - from);
        assert(is_v4_octet(seg));
    }
    Some(val as u8)
}

/// Parse a dotted-quad IPv4 literal such as `"127.0.0.1"`. Any other text,
/// a host name in particular, yields `None`.
pub fn parse_v4_literal(host: &str) -> (r: Option<IpAddress>)
    ensures
        r.is_some() <==> is_v4_literal(host@),
        is_v4_literal(host@) ==> r == Some(v4_literal_value(host@)),
{
    let ghost s = host@;
    let n = host.unicode_len();
    let mut v: Vec<char> = Vec::new();
    let mut idx: usize = 0;
    while idx < n
        invariant
            idx <= n,
            n == s.len(),
            s == host@,
            v@ =~= s.subrange(0, idx as int),
        decreases n - idx,
    {
        v.push(host.get_char(idx));
        idx += 1;
    }
    proof {
        assert(v@ =~= s);
    }
    let mut d1: usize = 0;
    let mut d2: usize = 0;
    let mut d3: usize = 0;
    let mut count: usize = 0;
    let mut i: usize = 0;
    while i < n
        invariant
            i <= n,
            n == s.len(),
            s == host@,
            v@ == s,
            count <= 3,
            count >= 1 ==> d1 < i && s[d1 as int] == '.',
            count >= 2 ==> d1 < d2 < i && s[d2 as int] == '.',
            count == 3 ==> d2 < d3 < i && s[d3 as int] == '.',
            forall|p: int|
                0 <= p < i && s[p] == '.' ==> (count >= 1 && p == d1 as int) || (count >= 2 && p
                    == d2 as int) || (count == 3 && p == d3 as int),
        decreases n - i,
    {
        let c = v[i];
        if c == '.' {
            if count == 0 {
                d1 = i;
            } else if count == 1 {
                d2 = i;
            } else if count == 2 {
                d3 = i;
            } else {
                proof {
                    if is_v4_literal(s) {
                        let (i0, j0, k0) = choose|i0: int, j0: int, k0: int|
                            v4_split_at(s, i0, j0, k0);
                        lemma_v4_split_dots(s, i0, j0, k0);
                        assert(s[i as int] == '.');
                        assert(false);
                    }
                }
                return None;
            }
            count += 1;
        }
        i += 1;
    }
    if count != 3 {
        proof {
            if is_v4_literal(s) {
                let (i0, j0, k0) = choose|i0: int, j0: int, k0: int| v4_split_at(s, i0, j0, k0);
                lemma_v4_split_dots(s, i0, j0, k0);
                assert(s[i0] == '.' && s[j0] == '.' && s[k0] == '.');
                assert(false);
            }
        }
        return None;
    }
    proof {
        assert(dots_exactly_at(s, d1 as int, d2 as int, d3 as int));
    }
    let o1 = check_octet(&v, 0, d1);
    let o2 = check_octet(&v, d1 + 1, d2);
    let o3 = check_octet(&v, d2 + 1, d3);
    let o4 = check_octet(&v, d3 + 1, n);
    match (o1, o2, o3, o4) {
        (Some(a), Some(b), Some(c), Some(d)) => {
            proof {
                assert(v4_split_at(s, d1 as int, d2 as int, d3 as int));
                let (i0, j0, k0) = choose|i0: int, j0: int, k0: int| v4_split_at(s, i0, j0, k0);
                lemma_v4_split_unique(s, i0, j0, k0, d1 as int, d2 as int, d3 as int);
            }
            Some(IpAddress::V4(a, b, c, d))
        },
        _ => {
            proof {
                if is_v4_literal(s) {
                    let (i0, j0, k0) = choose|i0: int, j0: int, k0: int|
                        v4_split_at(s, i0, j0, k0);
                    lemma_v4_split_dots(s, i0, j0, k0);
                    lemma_dots_unique(s, i0, j0, k0, d1 as int, d2 as int, d3 as int);
                    assert(false);
                }
            }
            None
        },
    }
}

} // verus!
