//! Network addresses, their textual form and the ring hash derived from it.

use vstd::prelude::*;
use vstd::utf8::encode_utf8;

verus! {

/// FNV-1a 64-bit offset basis.
pub const FNV_OFFSET: u64 = 0xcbf2_9ce4_8422_2325;

/// FNV-1a 64-bit prime.
pub const FNV_PRIME: u64 = 0x0000_0100_0000_01b3;

/// The byte `:`, separator of the address fields.
pub const COLON: u8 = 58;

/// The byte `0`; decimal digits follow it.
pub const DIGIT_ZERO: u8 = 48;

/// A node's network address. Equality is structural.
#[derive(PartialEq, Eq, Debug)]
pub struct Addr {
    pub ip: String,
    pub port: u32,
}

impl Clone for Addr {
    fn clone(&self) -> (r: Self)
        ensures
            r == *self,
    {
        Addr { ip: self.ip.clone(), port: self.port }
    }
}

/// The decimal digits of `n`, most significant first, without leading zeros.
pub open spec fn decimal_digits(n: nat) -> Seq<u8>
    decreases n,
{
    if n < 10 {
        seq![(DIGIT_ZERO + n) as u8]
    } else {
        decimal_digits(n / 10) + seq![(DIGIT_ZERO + n % 10) as u8]
    }
}

/// The same digits as characters.
pub open spec fn decimal_chars(n: nat) -> Seq<char> {
    decimal_digits(n).map_values(|b: u8| b as char)
}

/// The bytes of `ip:port`: the UTF-8 encoding of the ip, a colon and the
/// port in decimal.
pub open spec fn addr_text(a: Addr) -> Seq<u8> {
    encode_utf8(a.ip@) + seq![COLON] + decimal_digits(a.port as nat)
}

/// One FNV-1a round: xor in the byte, then multiply modulo 2^64.
pub open spec fn fnv1a_step(h: u64, b: u8) -> u64 {
    (h ^ (b as u64)).wrapping_mul(FNV_PRIME)
}

/// The 64-bit FNV-1a hash of a byte sequence.
pub open spec fn fnv1a(bytes: Seq<u8>) -> u64
    decreases bytes.len(),
{
    if bytes.len() == 0 {
        FNV_OFFSET
    } else {
        fnv1a_step(fnv1a(bytes.drop_last()), bytes.last())
    }
}

/// The position of an address on the ring: FNV-1a over its text `ip:port`.
pub open spec fn hash_of(a: Addr) -> u64 {
    fnv1a(addr_text(a))
}

/// Appends the decimal digits of `n` to `v`.
pub fn push_decimal(v: &mut Vec<u8>, n: u32)
    ensures
        final(v)@ == old(v)@ + decimal_digits(n as nat),
    decreases n,
{
    if n >= 10 {
        push_decimal(v, n / 10);
    }
    v.push(DIGIT_ZERO + (n % 10) as u8);
    assert(final(v)@ =~= old(v)@ + decimal_digits(n as nat));
}

/// The one-character string of the digit `d`.
fn digit_str(d: u32) -> (r: &'static str)
    requires
        d < 10,
    ensures
        r@ == seq![((DIGIT_ZERO + d) as u8) as char],
{
    proof {
        reveal_strlit("0");
        reveal_strlit("1");
        reveal_strlit("2");
        reveal_strlit("3");
        reveal_strlit("4");
        reveal_strlit("5");
        reveal_strlit("6");
        reveal_strlit("7");
        reveal_strlit("8");
        reveal_strlit("9");
    }
    match d {
        0 => "0",
        1 => "1",
        2 => "2",
        3 => "3",
        4 => "4",
        5 => "5",
        6 => "6",
        7 => "7",
        8 => "8",
        _ => "9",
    }
}

/// Appends the decimal digits of `n` to `s`.
fn push_decimal_str(s: &mut String, n: u32)
    ensures
        final(s)@ == old(s)@ + decimal_chars(n as nat),
    decreases n,
{
    if n >= 10 {
        push_decimal_str(s, n / 10);
    }
    s.append(digit_str(n % 10));
    assert(decimal_chars(n as nat) =~= if n < 10 {
        seq![((DIGIT_ZERO + n) as u8) as char]
    } else {
        decimal_chars((n / 10) as nat) + seq![((DIGIT_ZERO + n % 10) as u8) as char]
    });
    assert(final(s)@ =~= old(s)@ + decimal_chars(n as nat));
}

impl Addr {
    /// The address as `ip:port`.
    pub fn to_string(&self) -> (r: String)
        ensures
            r@ == self.ip@ + seq![':'] + decimal_chars(self.port as nat),
    {
        let mut s = self.ip.clone();
        proof {
            reveal_strlit(":");
        }
        s.append(":");
        push_decimal_str(&mut s, self.port);
        s
    }

    /// The bytes of `ip:port`, as they stand on the wire.
    pub fn text(&self) -> (r: Vec<u8>)
        ensures
            r@ == addr_text(*self),
    {
        let mut v: Vec<u8> = Vec::new();
        push_bytes(&mut v, self.ip.as_str().as_bytes());
        v.push(COLON);
        push_decimal(&mut v, self.port);
        v
    }
}

/// Appends all of `src` to `v`.
pub fn push_bytes(v: &mut Vec<u8>, src: &[u8])
    ensures
        final(v)@ == old(v)@ + src@,
{
    let ghost start = v@;
    let mut i: usize = 0;
    while i < src.len()
        invariant
            i <= src@.len(),
            v@ == start + src@.subrange(0, i as int),
        decreases src@.len() - i,
    {
        v.push(src[i]);
        i = i + 1;
        assert(v@ =~= start + src@.subrange(0, i as int));
    }
    assert(src@.subrange(0, i as int) =~= src@);
}

/// FNV-1a over a byte slice.
pub fn fnv1a_bytes(bytes: &[u8]) -> (r: u64)
    ensures
        r == fnv1a(bytes@),
{
    let mut h: u64 = FNV_OFFSET;
    let mut i: usize = 0;
    while i < bytes.len()
        invariant
            i <= bytes@.len(),
            h == fnv1a(bytes@.subrange(0, i as int)),
        decreases bytes@.len() - i,
    {
        let b = bytes[i];
        h = (h ^ (b as u64)).wrapping_mul(FNV_PRIME);
        assert(bytes@.subrange(0, i + 1).drop_last() =~= bytes@.subrange(0, i as int));
        i = i + 1;
    }
    assert(bytes@.subrange(0, i as int) =~= bytes@);
    h
}

/// The ring position of an address: 64-bit FNV-1a over its text `ip:port`.
/// Two structurally equal addresses always get the same value, in every
/// process, so that peers can recompute each other's position.
pub fn calculate_hash(a: &Addr) -> (r: u64)
    ensures
        r == hash_of(*a),
{
    let t = a.text();
    fnv1a_bytes(t.as_slice())
}

} // verus!
