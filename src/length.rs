//! BER-style length octets and big-endian integers.
use vstd::arithmetic::div_mod::lemma_mod_breakdown;
use vstd::prelude::*;

use crate::error::{Error, KeyError};

verus! {

/// `256` to the power `n`.
pub open spec fn pow256(n: nat) -> nat
    decreases n,
{
    if n == 0 {
        1
    } else {
        256 * pow256((n - 1) as nat)
    }
}

/// The unsigned number that the bytes of `s` spell in big-endian order.
pub open spec fn be_value(s: Seq<u8>) -> nat
    decreases s.len(),
{
    if s.len() == 0 {
        0
    } else {
        be_value(s.drop_last()) * 256 + s.last() as nat
    }
}

/// The `n` lowest-order bytes of `v`, most significant first.
pub open spec fn be_bytes(v: nat, n: nat) -> Seq<u8>
    decreases n,
{
    if n == 0 {
        Seq::empty()
    } else {
        be_bytes(v / 256, (n - 1) as nat).push((v % 256) as u8)
    }
}

pub proof fn lemma_pow256_positive(n: nat)
    ensures
        pow256(n) > 0,
    decreases n,
{
    if n > 0 {
        lemma_pow256_positive((n - 1) as nat);
    }
}

pub proof fn lemma_pow256_values()
    ensures
        pow256(1) == 0x100,
        pow256(2) == 0x1_0000,
        pow256(3) == 0x100_0000,
        pow256(4) == 0x1_0000_0000,
        pow256(8) == 0x1_0000_0000_0000_0000,
{
    reveal_with_fuel(pow256, 9);
}

pub proof fn lemma_be_bytes_len(v: nat, n: nat)
    ensures
        be_bytes(v, n).len() == n,
    decreases n,
{
    if n > 0 {
        lemma_be_bytes_len(v / 256, (n - 1) as nat);
    }
}

/// Reading back `n` written bytes gives the value modulo `256^n`.
pub proof fn lemma_be_value_of_bytes(v: nat, n: nat)
    ensures
        be_value(be_bytes(v, n)) == v % pow256(n),
    decreases n,
{
    if n == 0 {
    } else {
        let m = (n - 1) as nat;
        lemma_be_value_of_bytes(v / 256, m);
        lemma_pow256_positive(m);
        let s = be_bytes(v, n);
        assert(s.drop_last() =~= be_bytes(v / 256, m));
        lemma_mod_breakdown(v as int, 256, pow256(m) as int);
        assert(v % pow256(n) == 256 * ((v / 256) % pow256(m)) + v % 256);
    }
}

/// A value below `256^n` survives a write and a read of `n` bytes.
pub proof fn lemma_be_round_trip(v: nat, n: nat)
    requires
        v < pow256(n),
    ensures
        be_value(be_bytes(v, n)) == v,
        be_bytes(v, n).len() == n,
{
    lemma_be_value_of_bytes(v, n);
    lemma_be_bytes_len(v, n);
    vstd::arithmetic::div_mod::lemma_small_mod(v, pow256(n));
}

pub proof fn lemma_be_value_bound(s: Seq<u8>)
    ensures
        be_value(s) < pow256(s.len()),
    decreases s.len(),
{
    if s.len() > 0 {
        lemma_be_value_bound(s.drop_last());
        let a = be_value(s.drop_last());
        let p = pow256((s.len() - 1) as nat);
        let b = s.last() as nat;
        assert(a * 256 + b < 256 * p) by (nonlinear_arith)
            requires
                a < p,
                b < 256,
        ;
    }
}

/// Reads `n` bytes of `buf` from `start` as a big-endian number.
pub fn read_be(buf: &[u8], start: usize, n: usize) -> (v: u64)
    requires
        start + n <= buf@.len(),
        n <= 8,
    ensures
        v as nat == be_value(buf@.subrange(start as int, start + n)),
{
    let mut acc: u64 = 0;
    let mut i: usize = start;
    let len = buf.len();
    assert(start + n <= len);
    let end: usize = start + n;
    proof {
        lemma_pow256_values();
    }
    while i < end
        invariant
            end == start + n,
            start <= i <= start + n,
            start + n <= buf@.len(),
            n <= 8,
            acc as nat == be_value(buf@.subrange(start as int, i as int)),
            pow256(8) == 0x1_0000_0000_0000_0000,
        decreases start + n - i,
    {
        let ghost prev = buf@.subrange(start as int, i as int);
        let ghost next = buf@.subrange(start as int, i + 1);
        proof {
            assert(next.drop_last() =~= prev);
            lemma_be_value_bound(next);
            lemma_pow256_mono(next.len(), 8);
        }
        acc = acc * 256 + buf[i] as u64;
        i = i + 1;
    }
    acc
}

pub proof fn lemma_pow256_mono(a: nat, b: nat)
    requires
        a <= b,
    ensures
        pow256(a) <= pow256(b),
    decreases b,
{
    if a < b {
        lemma_pow256_mono(a, (b - 1) as nat);
        lemma_pow256_positive((b - 1) as nat);
    }
}

/// Appends the `n` lowest-order bytes of `v`, most significant first.
pub fn push_be(out: &mut Vec<u8>, v: u64, n: usize)
    requires
        n <= 8,
    ensures
        final(out)@ == old(out)@ + be_bytes(v as nat, n as nat),
    decreases n,
{
    if n > 0 {
        push_be(out, v / 256, n - 1);
        out.push((v % 256) as u8);
        proof {
            assert(final(out)@ =~= old(out)@ + be_bytes(v as nat, n as nat));
        }
    }
}

/// Appends the bytes of `src` to `out`.
pub fn extend_bytes(out: &mut Vec<u8>, src: &[u8])
    ensures
        final(out)@ == old(out)@ + src@,
{
    let mut i: usize = 0;
    while i < src.len()
        invariant
            i <= src@.len(),
            out@ == old(out)@ + src@.subrange(0, i as int),
        decreases src@.len() - i,
    {
        out.push(src[i]);
        i = i + 1;
        proof {
            assert(out@ =~= old(out)@ + src@.subrange(0, i as int));
        }
    }
    proof {
        assert(src@.subrange(0, src@.len() as int) =~= src@);
    }
}

/// Whether `v` holds `k`.
pub fn contains_byte(v: &[u8], k: u8) -> (r: bool)
    ensures
        r == v@.contains(k),
{
    let mut i: usize = 0;
    while i < v.len()
        invariant
            i <= v@.len(),
            forall|j: int| 0 <= j < i ==> v@[j] != k,
        decreases v@.len() - i,
    {
        if v[i] == k {
            return true;
        }
        i = i + 1;
    }
    false
}

/// The first byte of a length field, classified by the BER rules.
#[derive(Debug, Clone, Copy, PartialEq, Eq)]
pub enum LengthOctet {
    /// A length of at most 127, held in the octet itself.
    Short(u8),
    /// An indefinite length, which this codec does not support.
    Indefinite,
    /// The length is held in the given number of following bytes.
    Long(u8),
    /// A reserved octet.
    Reserved,
}

pub open spec fn octet_of(b: u8) -> LengthOctet {
    if b < 0x80 {
        LengthOctet::Short(b)
    } else if b == 0xff {
        LengthOctet::Reserved
    } else if b == 0x80 {
        LengthOctet::Indefinite
    } else {
        LengthOctet::Long((b - 0x80) as u8)
    }
}

/// The number of bytes a long-form length may occupy.
pub open spec fn supported_long(k: u8) -> bool {
    k == 1 || k == 2 || k == 3 || k == 4 || k == 8
}

/// Decoding a length field at the start of `buf`: the bytes it occupies and
/// the content length it declares.
pub open spec fn decode_length(buf: Seq<u8>) -> Result<(usize, usize), Error> {
    if buf.len() == 0 {
        Err(Error::ContentLength)
    } else {
        match octet_of(buf[0]) {
            LengthOctet::Short(n) => Ok((1, n as usize)),
            LengthOctet::Long(k) => {
                if !supported_long(k) {
                    Err(Error::UnsupportedLength(buf[0]))
                } else if buf.len() < 1 + k {
                    Err(Error::ContentLength)
                } else if be_value(buf.subrange(1, 1 + k)) > usize::MAX {
                    Err(Error::UnsupportedLength(buf[0]))
                } else {
                    Ok(((1 + k) as usize, be_value(buf.subrange(1, 1 + k)) as usize))
                }
            },
            _ => Err(Error::UnsupportedLength(buf[0])),
        }
    }
}

/// The length field for `size`: the size itself when it is at most 127, else
/// `0x80 | k` and `size` in the fewest `k` bytes out of 1, 2 and 4 (8 beyond
/// 32 bits).
pub open spec fn encode_length(size: nat) -> Seq<u8> {
    if size <= 0x7f {
        seq![size as u8]
    } else if size <= 0xff {
        seq![0x81u8] + be_bytes(size, 1)
    } else if size <= 0xffff {
        seq![0x82u8] + be_bytes(size, 2)
    } else if size <= 0xffff_ffff {
        seq![0x84u8] + be_bytes(size, 4)
    } else {
        seq![0x88u8] + be_bytes(size, 8)
    }
}

/// The universal key lengths this codec supports.
pub open spec fn valid_universal_key_len(n: nat) -> bool {
    n == 1 || n == 2 || n == 4 || n == 16
}

impl LengthOctet {
    /// Classifies the first byte of a length field.
    pub fn from_u8(b: u8) -> (r: Self)
        ensures
            r == octet_of(b),
    {
        if b & 0x80 != 0x80 {
            assert(b & 0x80 != 0x80 ==> b < 0x80 && b & 0x7f == b) by (bit_vector);
            LengthOctet::Short(b & 0x7f)
        } else if b == 0xff {
            LengthOctet::Reserved
        } else if b == 0x80 {
            LengthOctet::Indefinite
        } else {
            assert(b & 0x80 == 0x80 ==> b >= 0x80 && b & 0x7f == b - 0x80) by (bit_vector);
            LengthOctet::Long(b & 0x7f)
        }
    }

    /// Appends the length field for `size` to `buf`; returns how many bytes it took.
    pub fn length_to_buf(buf: &mut Vec<u8>, size: usize) -> (r: usize)
        ensures
            final(buf)@ == old(buf)@ + encode_length(size as nat),
            r == encode_length(size as nat).len(),
    {
        proof {
            lemma_be_bytes_len(size as nat, 1);
            lemma_be_bytes_len(size as nat, 2);
            lemma_be_bytes_len(size as nat, 4);
            lemma_be_bytes_len(size as nat, 8);
        }
        if size <= 0x7f {
            buf.push(size as u8);
            proof {
                assert(final(buf)@ =~= old(buf)@ + encode_length(size as nat));
            }
            1
        } else {
            let k: usize = if size <= 0xff {
                1
            } else if size <= 0xffff {
                2
            } else if size <= 0xffff_ffff {
                4
            } else {
                8
            };
            buf.push(0x80u8 + k as u8);
            push_be(buf, size as u64, k);
            proof {
                assert(final(buf)@ =~= old(buf)@ + encode_length(size as nat));
            }
            1 + k
        }
    }
}

/// Parses the length field at the start of `buf`: the bytes it occupies and
/// the content length it declares.
pub fn parse_length(buf: &[u8]) -> (r: Result<(usize, usize), Error>)
    ensures
        r == decode_length(buf@),
{
    if buf.len() == 0 {
        return Err(Error::ContentLength);
    }
    match LengthOctet::from_u8(buf[0]) {
        LengthOctet::Short(n) => Ok((1, n as usize)),
        LengthOctet::Long(k) => {
            if !(k == 1 || k == 2 || k == 3 || k == 4 || k == 8) {
                Err(Error::UnsupportedLength(buf[0]))
            } else if buf.len() < 1 + k as usize {
                Err(Error::ContentLength)
            } else {
                let v = read_be(buf, 1, k as usize);
                if v > usize::MAX as u64 {
                    Err(Error::UnsupportedLength(buf[0]))
                } else {
                    Ok((1 + k as usize, v as usize))
                }
            }
        },
        _ => Err(Error::UnsupportedLength(buf[0])),
    }
}

/// Checks that a universal key has a supported length and returns it.
pub fn check_universal_key_len(key: &[u8]) -> (r: Result<usize, Error>)
    ensures
        valid_universal_key_len(key@.len()) ==> r == Ok::<usize, Error>(key@.len() as usize),
        !valid_universal_key_len(key@.len()) ==> r == Err::<usize, Error>(
            Error::Key(KeyError::UniversalKeyLength(key@.len() as usize)),
        ),
{
    let n = key.len();
    if n == 1 || n == 2 || n == 4 || n == 16 {
        Ok(n)
    } else {
        Err(Error::Key(KeyError::UniversalKeyLength(n)))
    }
}

/// Decoding an encoded length gives back the size and the number of bytes
/// the field occupies, whatever follows it.
pub proof fn lemma_length_round_trip(size: usize, rest: Seq<u8>)
    ensures
        decode_length(encode_length(size as nat) + rest) == Ok::<(usize, usize), Error>(
            (encode_length(size as nat).len() as usize, size),
        ),
{
    let e = encode_length(size as nat);
    let b = e + rest;
    lemma_pow256_values();
    if size <= 0x7f {
    } else {
        let k: int = if size <= 0xff {
            1
        } else if size <= 0xffff {
            2
        } else if size <= 0xffff_ffff {
            4
        } else {
            8
        };
        lemma_be_round_trip(size as nat, k as nat);
        assert(e == seq![(0x80 + k) as u8] + be_bytes(size as nat, k as nat));
        assert(b.subrange(1, 1 + k) =~= be_bytes(size as nat, k as nat));
        assert(octet_of(b[0]) == LengthOctet::Long(k as u8));
    }
}

} // verus!
