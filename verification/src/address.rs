//! Parsing and formatting of node addresses.
//!
//! An address prints as `host:port` and parses back from the same form;
//! an input without a colon, or whose port is not a decimal number up to
//! 65535, is rejected.

use vstd::prelude::*;
use core::str::FromStr;
use crate::payload::NodeAddress;
use vstd::slice::slice_index_get;
use vstd::string::StringSliceAdditionalSpecFns;

verus! {

/// ASCII decimal digit.
pub open spec fn is_digit(b: u8) -> bool {
    48 <= b <= 57
}

/// No colon anywhere in the byte string.
pub open spec fn colon_free(s: Seq<u8>) -> bool {
    forall|i: int| 0 <= i < s.len() ==> s[i] != 58
}

/// The decimal digits of `n`, most significant first.
pub open spec fn dec_digits(n: nat) -> Seq<u8>
    decreases n,
{
    if n < 10 {
        seq![(48 + n) as u8]
    } else {
        dec_digits(n / 10).push((48 + n % 10) as u8)
    }
}

/// The number denoted by decimal digits.
pub open spec fn dec_value(s: Seq<u8>) -> nat
    decreases s.len(),
{
    if s.len() == 0 {
        0
    } else {
        dec_value(s.drop_last()) * 10 + (s.last() - 48) as nat
    }
}

/// A non-empty, all-digit byte string denoting at most 65535.
pub open spec fn valid_port_bytes(s: Seq<u8>) -> bool {
    &&& s.len() > 0
    &&& forall|i: int| 0 <= i < s.len() ==> is_digit(#[trigger] s[i])
    &&& dec_value(s) <= 65535
}

/// Splits at the first colon: the bytes before it and the bytes after it.
pub open spec fn split_at_colon(s: Seq<u8>) -> Option<(Seq<u8>, Seq<u8>)>
    decreases s.len(),
{
    if s.len() == 0 {
        None
    } else if s[0] == 58 {
        Some((Seq::empty(), s.drop_first()))
    } else {
        match split_at_colon(s.drop_first()) {
            None => None,
            Some((h, p)) => Some((seq![s[0]] + h, p)),
        }
    }
}

/// The address denoted by a `host:port` byte string, if well formed.
pub open spec fn parse_spec(s: Seq<u8>) -> Option<(Seq<u8>, u16)> {
    match split_at_colon(s) {
        None => None,
        Some((h, p)) => if valid_port_bytes(p) {
            Some((h, dec_value(p) as u16))
        } else {
            None
        },
    }
}

/// The canonical `host:port` bytes of an address.
pub open spec fn addr_bytes(a: NodeAddress) -> Seq<u8> {
    a.host_name@ + seq![58u8] + dec_digits(a.port as nat)
}

/// Why an input failed to parse.
#[derive(Clone, Copy, Debug, PartialEq, Eq, Structural)]
pub enum AddressParseError {
    /// No colon, so no port at all.
    MissingPort,
    /// The bytes after the first colon are not a port number.
    InvalidPort,
}

pub proof fn lemma_dec_digits_valid(n: nat)
    ensures
        dec_digits(n).len() > 0,
        forall|i: int| 0 <= i < dec_digits(n).len() ==> is_digit(#[trigger] dec_digits(n)[i]),
        colon_free(dec_digits(n)),
    decreases n,
{
    if n < 10 {
    } else {
        lemma_dec_digits_valid(n / 10);
        assert forall|i: int| 0 <= i < dec_digits(n).len() implies is_digit(
            #[trigger] dec_digits(n)[i],
        ) by {
            if i < dec_digits(n / 10).len() {
                assert(dec_digits(n)[i] == dec_digits(n / 10)[i]);
            }
        }
    }
}

pub proof fn lemma_dec_value_of_digits(n: nat)
    ensures
        dec_value(dec_digits(n)) == n,
    decreases n,
{
    if n < 10 {
        assert(dec_digits(n).drop_last() =~= Seq::<u8>::empty());
        assert(dec_digits(n).last() == (48 + n) as u8);
        assert((48 + n) as u8 == 48 + n);
        assert(dec_value(Seq::<u8>::empty()) == 0);
        assert(dec_value(dec_digits(n)) == 0 * 10 + ((48 + n) as u8 - 48) as nat);
    } else {
        lemma_dec_value_of_digits(n / 10);
        let s = dec_digits(n);
        assert(s.drop_last() =~= dec_digits(n / 10));
        assert(s.last() == (48 + n % 10) as u8);
        assert((48 + n % 10) as u8 == 48 + n % 10);
        assert(dec_value(s) == dec_value(s.drop_last()) * 10 + (s.last() - 48) as nat);
        assert(dec_value(s) == (n / 10) * 10 + n % 10);
        assert((n / 10) * 10 + n % 10 == n) by (nonlinear_arith);
    }
}

pub proof fn lemma_dec_value_prefix_le(s: Seq<u8>, j: int)
    requires
        0 <= j <= s.len(),
    ensures
        dec_value(s.subrange(0, j)) <= dec_value(s),
    decreases s.len() - j,
{
    if j == s.len() {
        assert(s.subrange(0, j) =~= s);
    } else {
        lemma_dec_value_prefix_le(s, j + 1);
        assert(s.subrange(0, j + 1).drop_last() =~= s.subrange(0, j));
        assert(dec_value(s.subrange(0, j + 1)) == dec_value(s.subrange(0, j)) * 10 + (s.subrange(
            0,
            j + 1,
        ).last() - 48) as nat);
    }
}

pub proof fn lemma_split_of_concat(h: Seq<u8>, p: Seq<u8>)
    requires
        colon_free(h),
    ensures
        split_at_colon(h + seq![58u8] + p) == Some((h, p)),
    decreases h.len(),
{
    let s = h + seq![58u8] + p;
    if h.len() == 0 {
        assert(s[0] == 58);
        assert(s.drop_first() =~= p);
        assert(split_at_colon(s) == Some((Seq::<u8>::empty(), p)));
        assert(Seq::<u8>::empty() =~= h);
    } else {
        assert(s[0] == h[0]);
        assert(s[0] != 58);
        lemma_split_of_concat(h.drop_first(), p);
        assert(s.drop_first() =~= h.drop_first() + seq![58u8] + p);
        assert(seq![s[0]] + h.drop_first() =~= h);
    }
}

/// Printing an address and parsing the result gives the address back,
/// for every address whose host holds no colon.
pub proof fn lemma_parse_format_round_trip(a: NodeAddress)
    requires
        colon_free(a.host_name@),
    ensures
        parse_spec(addr_bytes(a)) == Some((a.host_name@, a.port)),
{
    lemma_split_of_concat(a.host_name@, dec_digits(a.port as nat));
    lemma_dec_digits_valid(a.port as nat);
    lemma_dec_value_of_digits(a.port as nat);
}

/// Appends the decimal digits of `n`.
fn push_dec(out: &mut Vec<u8>, n: u16)
    ensures
        final(out)@ == old(out)@ + dec_digits(n as nat),
    decreases n,
{
    if n < 10 {
        out.push((48 + n) as u8);
        proof {
            assert(out@ =~= old(out)@ + dec_digits(n as nat));
        }
    } else {
        push_dec(out, n / 10);
        out.push((48 + n % 10) as u8);
        proof {
            assert(out@ =~= old(out)@ + dec_digits(n as nat));
        }
    }
}

impl NodeAddress {
    /// The `host:port` byte form of this address.
    pub fn format(&self) -> (r: Vec<u8>)
        ensures
            r@ == addr_bytes(*self),
    {
        let mut out: Vec<u8> = Vec::new();
        out.extend_from_slice(self.host_name.as_slice());
        out.push(58);
        push_dec(&mut out, self.port);
        proof {
            assert(out@ =~= addr_bytes(*self));
        }
        out
    }

    /// Parses a `host:port` byte string: the host is everything before the
    /// first colon, the port everything after it, which must denote a
    /// number up to 65535.
    pub fn parse(s: &[u8]) -> (r: Result<NodeAddress, AddressParseError>)
        ensures
            match r {
                Ok(a) => parse_spec(s@) == Some((a.host_name@, a.port)),
                Err(AddressParseError::MissingPort) => split_at_colon(s@) is None,
                Err(AddressParseError::InvalidPort) => parse_spec(s@) is None && split_at_colon(
                    s@,
                ) is Some,
            },
    {
        let mut i: usize = 0;
        while i < s.len() && *slice_index_get(s, i) != 58
            invariant
                i <= s@.len(),
                forall|j: int| 0 <= j < i ==> s@[j] != 58,
            decreases s@.len() - i,
        {
            i = i + 1;
        }
        if i == s.len() {
            proof {
                lemma_no_colon_no_split(s@);
            }
            return Err(AddressParseError::MissingPort);
        }
        let ghost h = s@.subrange(0, i as int);
        let ghost p = s@.subrange(i + 1, s@.len() as int);
        proof {
            assert(s@ =~= h + seq![58u8] + p);
            lemma_split_of_concat(h, p);
        }
        // parse the port digits
        let mut acc: u32 = 0;
        let mut j: usize = i + 1;
        if j == s.len() {
            return Err(AddressParseError::InvalidPort);
        }
        while j < s.len()
            invariant
                i + 1 <= j <= s@.len(),
                i < s@.len(),
                acc <= 65535,
                p == s@.subrange(i + 1, s@.len() as int),
                h == s@.subrange(0, i as int),
                split_at_colon(s@) == Some((h, p)),
                acc == dec_value(p.subrange(0, j - i - 1)),
                forall|t: int| 0 <= t < j - i - 1 ==> is_digit(#[trigger] p[t]),
            decreases s@.len() - j,
        {
            let b = *slice_index_get(s, j);
            if b < 48 || b > 57 {
                proof {
                    assert(!is_digit(p[j - i - 1]));
                }
                return Err(AddressParseError::InvalidPort);
            }
            let d: u32 = (b - 48) as u32;
            let acc2: u32 = acc * 10 + d;
            proof {
                assert(p.subrange(0, j - i) =~= p.subrange(0, j - i - 1).push(p[j - i - 1]));
                assert(p.subrange(0, j - i).drop_last() =~= p.subrange(0, j - i - 1));
                assert(dec_value(p.subrange(0, j - i)) == acc * 10 + d);
            }
            if acc2 > 65535 {
                proof {
                    lemma_dec_value_prefix_le(p, j - i);
                }
                return Err(AddressParseError::InvalidPort);
            }
            acc = acc2;
            j = j + 1;
        }
        proof {
            assert(p.subrange(0, p.len() as int) =~= p);
        }
        let host = vstd::slice::slice_to_vec(vstd::slice::slice_subrange(s, 0, i));
        Ok(NodeAddress { host_name: host, port: acc as u16 })
    }
}

pub proof fn lemma_no_colon_no_split(s: Seq<u8>)
    requires
        colon_free(s),
    ensures
        split_at_colon(s) is None,
    decreases s.len(),
{
    if s.len() == 0 {
    } else {
        assert(s[0] != 58);
        assert forall|i: int| 0 <= i < s.drop_first().len() implies s.drop_first()[i] != 58 by {
            assert(s.drop_first()[i] == s[i + 1]);
        }
        lemma_no_colon_no_split(s.drop_first());
    }
}

impl FromStr for NodeAddress {
    type Err = String;

    fn from_str(s: &str) -> (r: Result<Self, Self::Err>)
        ensures
            r matches Ok(a) ==> parse_spec(s.spec_bytes()) == Some((a.host_name@, a.port)),
            r is Err ==> parse_spec(s.spec_bytes()) is None,
            r matches Err(e) ==> (if split_at_colon(s.spec_bytes()) is None {
                e@ == "Couldn't parse node address"@
            } else {
                e@ == "Couldn't parse port"@
            }),
    {
        match NodeAddress::parse(s.as_bytes()) {
            Ok(a) => Ok(a),
            Err(AddressParseError::MissingPort) => Err(
                <String as vstd::string::StringExecFns>::from_str("Couldn't parse node address"),
            ),
            Err(AddressParseError::InvalidPort) => Err(<String as vstd::string::StringExecFns>::from_str("Couldn't parse port")),
        }
    }
}

} // verus!
