//! The length prefix: the leading bytes that give a payload's kind (byte
//! string or list) and its length, in canonical (minimal) form.

use vstd::prelude::*;
use vstd::slice::slice_subrange;
use crate::error::Error;

verus! {

/// Minimal big-endian bytes of `n`: empty for zero, no leading zero byte otherwise.
pub open spec fn be_bytes(n: nat) -> Seq<u8>
    decreases n,
{
    if n == 0 {
        Seq::empty()
    } else {
        be_bytes(n / 256).push((n % 256) as u8)
    }
}

/// The number that a sequence of big-endian bytes stands for.
pub open spec fn be_value(s: Seq<u8>) -> nat
    decreases s.len(),
{
    if s.len() == 0 {
        0
    } else {
        be_value(s.drop_last()) * 256 + s.last() as nat
    }
}

/// `256` to the power `k`.
pub open spec fn pow256(k: nat) -> nat
    decreases k,
{
    if k == 0 {
        1
    } else {
        256 * pow256((k - 1) as nat)
    }
}

/// The first byte of a short-form prefix: `0x80` for a byte string, `0xc0` for a list.
pub open spec fn short_base(list: bool) -> nat {
    if list {
        0xc0
    } else {
        0x80
    }
}

/// The canonical prefix of a payload of the given kind and length: one byte
/// `base + len` below 56, else `base + 55 + k` followed by the `k` minimal
/// big-endian bytes of the length.
pub open spec fn prefix(list: bool, len: nat) -> Seq<u8> {
    if len < 56 {
        seq![(short_base(list) + len) as u8]
    } else {
        seq![(short_base(list) + 55 + be_bytes(len).len()) as u8] + be_bytes(len)
    }
}

/// The length carried by a long-form prefix whose first byte announces
/// `lol` length bytes, or why it is refused.
pub open spec fn long_length(buf: Seq<u8>, lol: nat) -> Result<nat, Error> {
    if buf.len() < 1 + lol {
        Err(Error::InputTooShort)
    } else if buf[1] == 0 {
        Err(Error::NonMinimalEncoding)
    } else if be_value(buf.subrange(1, 1 + lol as int)) < 56 {
        Err(Error::NonMinimalEncoding)
    } else {
        Ok(be_value(buf.subrange(1, 1 + lol as int)))
    }
}

/// What the first bytes of `buf` announce, before any bound is checked:
/// `(is_list, prefix_bytes, payload_len)`. A byte below `0x80` is a byte
/// string of length one that is its own encoding (no prefix bytes).
pub open spec fn announced(buf: Seq<u8>) -> Result<(bool, nat, nat), Error> {
    if buf.len() == 0 {
        Err(Error::InputTooShort)
    } else if buf[0] < 0x80 {
        Ok((false, 0, 1))
    } else if buf[0] < 0xb8 {
        Ok((false, 1, (buf[0] - 0x80) as nat))
    } else if buf[0] < 0xc0 {
        let lol = (buf[0] - 0xb7) as nat;
        match long_length(buf, lol) {
            Ok(n) => Ok((false, 1 + lol, n)),
            Err(e) => Err(e),
        }
    } else if buf[0] < 0xf8 {
        Ok((true, 1, (buf[0] - 0xc0) as nat))
    } else {
        let lol = (buf[0] - 0xf7) as nat;
        match long_length(buf, lol) {
            Ok(n) => Ok((true, 1 + lol, n)),
            Err(e) => Err(e),
        }
    }
}

/// The header at the start of `buf`, checked against the ceiling `max`, the
/// bytes available and the single-byte canonical form.
pub open spec fn parse_header(buf: Seq<u8>, max: nat) -> Result<(bool, nat, nat), Error> {
    match announced(buf) {
        Err(e) => Err(e),
        Ok((list, pre, len)) => {
            if len > max {
                Err(Error::ValueTooLong)
            } else if buf.len() < pre + len {
                Err(Error::InputTooShort)
            } else if !list && pre == 1 && len == 1 && buf[1] < 0x80 {
                Err(Error::NonMinimalEncoding)
            } else {
                Ok((list, pre, len))
            }
        },
    }
}

/// A decoded length prefix.
#[derive(Debug, Clone, Copy, PartialEq, Eq, Structural)]
pub struct Header {
    /// Whether the payload is a list (else a byte string).
    pub list: bool,
    /// How many bytes the prefix takes (zero for a single byte below `0x80`).
    pub offset: usize,
    /// The payload's length in bytes.
    pub len: usize,
}

impl Header {
    /// The header as the triple that `parse_header` speaks of.
    pub open spec fn as_triple(self) -> (bool, nat, nat) {
        (self.list, self.offset as nat, self.len as nat)
    }
}

pub proof fn lemma_pow256_8()
    ensures
        pow256(7) == 0x100_0000_0000_0000,
        pow256(8) == 0x1_0000_0000_0000_0000,
{
    reveal_with_fuel(pow256, 9);
}

pub proof fn lemma_pow256_mono(j: nat, k: nat)
    requires
        j <= k,
    ensures
        pow256(j) <= pow256(k),
    decreases k,
{
    if j < k {
        lemma_pow256_mono(j, (k - 1) as nat);
    }
}

/// A number below `256^k` has at most `k` minimal big-endian bytes.
pub proof fn lemma_be_bytes_len(n: nat, k: nat)
    requires
        n < pow256(k),
    ensures
        be_bytes(n).len() <= k,
    decreases k,
{
    if n > 0 {
        let p = pow256((k - 1) as nat);
        assert(n / 256 < p) by (nonlinear_arith)
            requires
                n < 256 * p,
        ;
        lemma_be_bytes_len(n / 256, (k - 1) as nat);
    }
}

/// The minimal bytes of a positive number start with a non-zero byte.
pub proof fn lemma_be_bytes_leading(n: nat)
    requires
        n > 0,
    ensures
        be_bytes(n).len() > 0,
        be_bytes(n)[0] != 0,
    decreases n,
{
    let rest = be_bytes(n / 256);
    assert(be_bytes(n) == rest.push((n % 256) as u8));
    if n / 256 > 0 {
        lemma_be_bytes_leading(n / 256);
        assert(be_bytes(n)[0] == rest[0]);
    } else {
        assert(n % 256 == n);
        assert(rest.len() == 0);
        assert(be_bytes(n)[0] == (n % 256) as u8);
    }
}

/// Big-endian bytes read back give the number they were made from.
pub proof fn lemma_be_value_of_bytes(n: nat)
    ensures
        be_value(be_bytes(n)) == n,
    decreases n,
{
    if n > 0 {
        lemma_be_value_of_bytes(n / 256);
        assert(be_bytes(n).drop_last() =~= be_bytes(n / 256));
        assert(n == (n / 256) * 256 + n % 256) by (nonlinear_arith);
    }
}

/// Bytes without a leading zero are the minimal bytes of their value.
pub proof fn lemma_bytes_of_be_value(s: Seq<u8>)
    requires
        s.len() == 0 || s[0] != 0,
    ensures
        be_bytes(be_value(s)) == s,
    decreases s.len(),
{
    if s.len() > 0 {
        let t = s.drop_last();
        if t.len() > 0 {
            assert(t[0] == s[0]);
        }
        lemma_bytes_of_be_value(t);
        let a = be_value(t);
        let b = s.last() as nat;
        let v = be_value(s);
        assert(v == a * 256 + b);
        assert(v / 256 == a && v % 256 == b) by (nonlinear_arith)
            requires
                v == a * 256 + b,
                b < 256,
        ;
        if t.len() == 0 {
            assert(a == 0);
            assert(b == s[0]);
        } else {
            assert(a != 0);
        }
        assert(v > 0);
        assert(s =~= t.push(s.last()));
    }
}

/// A value read from `k` bytes is below `256^k`.
pub proof fn lemma_be_value_bound(s: Seq<u8>)
    ensures
        be_value(s) < pow256(s.len()),
    decreases s.len(),
{
    if s.len() > 0 {
        let t = s.drop_last();
        lemma_be_value_bound(t);
        let a = be_value(t);
        let p = pow256(t.len());
        let b = s.last() as nat;
        assert(a * 256 + b < 256 * p) by (nonlinear_arith)
            requires
                a < p,
                b < 256,
        ;
    }
}

/// The minimal big-endian bytes of `n`.
pub fn be_bytes_of(n: u64) -> (r: Vec<u8>)
    ensures
        r@ == be_bytes(n as nat),
{
    let mut r: Vec<u8> = Vec::new();
    let mut m: u64 = n;
    while m > 0
        invariant
            be_bytes(n as nat) == be_bytes(m as nat) + r@,
        decreases m,
    {
        let b: u8 = (m % 256) as u8;
        let ghost old_r = r@;
        r.insert(0, b);
        proof {
            assert(be_bytes(m as nat) == be_bytes((m / 256) as nat).push(b));
            assert(be_bytes(m as nat) + old_r =~= be_bytes((m / 256) as nat) + r@);
        }
        m = m / 256;
    }
    proof {
        assert(be_bytes(n as nat) =~= r@);
    }
    r
}

/// Appends the canonical prefix of a payload of the given kind and length.
pub fn write_length(list: bool, len: usize, out: &mut Vec<u8>)
    ensures
        final(out)@ == old(out)@ + prefix(list, len as nat),
{
    let base: u8 = if list {
        0xc0
    } else {
        0x80
    };
    if len < 56 {
        out.push(base + len as u8);
        proof {
            assert(final(out)@ =~= old(out)@ + prefix(list, len as nat));
        }
    } else {
        let be = be_bytes_of(len as u64);
        proof {
            lemma_pow256_8();
            lemma_be_bytes_len(len as nat, 8);
        }
        out.push(base + 55 + be.len() as u8);
        out.extend_from_slice(be.as_slice());
        proof {
            assert(final(out)@ =~= old(out)@ + prefix(list, len as nat));
        }
    }
}

/// Reads the `lol` big-endian length bytes after a long-form first byte.
fn read_long_length(buf: &[u8], lol: usize) -> (r: Result<u64, Error>)
    requires
        1 <= lol <= 8,
    ensures
        match r {
            Ok(n) => long_length(buf@, lol as nat) == Ok::<nat, Error>(n as nat),
            Err(e) => long_length(buf@, lol as nat) == Err::<nat, Error>(e),
        },
{
    if buf.len() < 1 + lol {
        return Err(Error::InputTooShort);
    }
    if buf[1] == 0 {
        return Err(Error::NonMinimalEncoding);
    }
    let v = be_value_of(slice_subrange(buf, 1, 1 + lol));
    if v < 56 {
        return Err(Error::NonMinimalEncoding);
    }
    Ok(v)
}

/// Reads what the first bytes of `buf` announce, before any bound is checked.
fn read_announced(buf: &[u8]) -> (r: Result<(bool, usize, u64), Error>)
    ensures
        match r {
            Ok((list, pre, len)) => announced(buf@) == Ok::<(bool, nat, nat), Error>(
                (list, pre as nat, len as nat),
            ) && pre <= 9,
            Err(e) => announced(buf@) == Err::<(bool, nat, nat), Error>(e),
        },
{
    if buf.len() == 0 {
        return Err(Error::InputTooShort);
    }
    let b0 = buf[0];
    if b0 < 0x80 {
        Ok((false, 0, 1))
    } else if b0 < 0xb8 {
        Ok((false, 1, (b0 - 0x80) as u64))
    } else if b0 < 0xc0 {
        let lol = (b0 - 0xb7) as usize;
        match read_long_length(buf, lol) {
            Ok(n) => Ok((false, 1 + lol, n)),
            Err(e) => Err(e),
        }
    } else if b0 < 0xf8 {
        Ok((true, 1, (b0 - 0xc0) as u64))
    } else {
        let lol = (b0 - 0xf7) as usize;
        match read_long_length(buf, lol) {
            Ok(n) => Ok((true, 1 + lol, n)),
            Err(e) => Err(e),
        }
    }
}

/// Reads and checks the length prefix at the start of `buf`: the payload
/// must not be longer than `max`, must fit in `buf`, and every length must be
/// written in its minimal form.
pub fn read_length(buf: &[u8], max: usize) -> (r: Result<Header, Error>)
    ensures
        match r {
            Ok(h) => parse_header(buf@, max as nat) == Ok::<(bool, nat, nat), Error>(h.as_triple())
                && h.offset + h.len <= buf.len(),
            Err(e) => parse_header(buf@, max as nat) == Err::<(bool, nat, nat), Error>(e),
        },
{
    let (list, offset, n) = match read_announced(buf) {
        Ok(t) => t,
        Err(e) => return Err(e),
    };
    if n > max as u64 {
        return Err(Error::ValueTooLong);
    }
    let len = n as usize;
    if buf.len() - offset < len {
        return Err(Error::InputTooShort);
    }
    if !list && offset == 1 && len == 1 && buf[1] < 0x80 {
        return Err(Error::NonMinimalEncoding);
    }
    Ok(Header { list, offset, len })
}

/// The canonical encoding of one item, given its kind and payload: a byte
/// string of one byte below `0x80` is that byte, anything else is its prefix
/// followed by the payload.
pub open spec fn encode_item(list: bool, payload: Seq<u8>) -> Seq<u8> {
    if !list && payload.len() == 1 && payload[0] < 0x80 {
        payload
    } else {
        prefix(list, payload.len()) + payload
    }
}

/// The item at the start of `buf`: `(is_list, payload, bytes_consumed)`.
pub open spec fn decode_item(buf: Seq<u8>, max: nat) -> Result<(bool, Seq<u8>, nat), Error> {
    match parse_header(buf, max) {
        Ok((list, pre, len)) => Ok((list, buf.subrange(pre as int, (pre + len) as int), pre + len)),
        Err(e) => Err(e),
    }
}

/// The prefix that the encoder writes is read back as the header it was
/// written for, whatever follows the payload.
pub proof fn lemma_header_round_trip(list: bool, len: nat, rest: Seq<u8>, max: nat)
    requires
        len <= max,
        len <= u64::MAX,
        rest.len() >= len,
        !(!list && len == 1 && rest[0] < 0x80),
    ensures
        parse_header(prefix(list, len) + rest, max) == Ok::<(bool, nat, nat), Error>(
            (list, prefix(list, len).len(), len),
        ),
{
    let buf = prefix(list, len) + rest;
    if len >= 56 {
        let be = be_bytes(len);
        lemma_pow256_8();
        lemma_be_bytes_len(len, 8);
        lemma_be_bytes_leading(len);
        lemma_be_value_of_bytes(len);
        let k = be.len();
        assert(buf[0] == (short_base(list) + 55 + k) as u8);
        assert(buf[1] == be[0]);
        assert(buf.subrange(1, 1 + k as int) =~= be);
        assert(long_length(buf, k) == Ok::<nat, Error>(len));
    } else {
        assert(buf[0] == (short_base(list) + len) as u8);
        if len == 1 {
            assert(buf[1] == rest[0]);
        }
    }
}

/// A header that is read back has exactly the canonical prefix of what it
/// announces: no other byte sequence is accepted for it.
pub proof fn lemma_header_canonical(buf: Seq<u8>, max: nat)
    requires
        parse_header(buf, max) is Ok,
    ensures
        ({
            let (list, pre, len) = parse_header(buf, max)->Ok_0;
            if pre == 0 {
                !list && len == 1 && buf[0] < 0x80
            } else {
                pre <= buf.len() && buf.subrange(0, pre as int) == prefix(list, len)
            }
        }),
{
    let (list, pre, len) = parse_header(buf, max)->Ok_0;
    if pre > 0 {
        if buf[0] >= 0xb8 && buf[0] < 0xc0 || buf[0] >= 0xf8 {
            let lol: nat = if list {
                (buf[0] - 0xf7) as nat
            } else {
                (buf[0] - 0xb7) as nat
            };
            let s = buf.subrange(1, 1 + lol as int);
            lemma_bytes_of_be_value(s);
            assert(be_bytes(len) == s);
            assert(buf.subrange(0, pre as int) =~= prefix(list, len));
        } else {
            assert(buf.subrange(0, pre as int) =~= prefix(list, len));
        }
    }
}

/// Round trip: an encoded item is decoded back to its kind and payload, and
/// exactly its own bytes are consumed, whatever follows them.
pub proof fn lemma_item_round_trip(list: bool, payload: Seq<u8>, rest: Seq<u8>, max: nat)
    requires
        payload.len() <= max,
        payload.len() <= u64::MAX,
    ensures
        decode_item(encode_item(list, payload) + rest, max) == Ok::<(bool, Seq<u8>, nat), Error>(
            (list, payload, encode_item(list, payload).len()),
        ),
{
    let enc = encode_item(list, payload);
    let buf = enc + rest;
    if !list && payload.len() == 1 && payload[0] < 0x80 {
        assert(buf[0] == payload[0]);
        assert(buf.subrange(0, 1) =~= payload);
    } else {
        let pre = prefix(list, payload.len());
        lemma_header_round_trip(list, payload.len(), payload + rest, max);
        assert(buf =~= pre + (payload + rest));
        assert(buf.subrange(pre.len() as int, (pre.len() + payload.len()) as int) =~= payload);
    }
}

/// Canonical uniqueness: whatever bytes are decoded to an item are exactly
/// that item's canonical encoding.
pub proof fn lemma_item_canonical(buf: Seq<u8>, max: nat)
    requires
        decode_item(buf, max) is Ok,
    ensures
        ({
            let (list, payload, n) = decode_item(buf, max)->Ok_0;
            n <= buf.len() && buf.subrange(0, n as int) == encode_item(list, payload)
        }),
{
    let (list, pre, len) = parse_header(buf, max)->Ok_0;
    lemma_header_canonical(buf, max);
    let payload = buf.subrange(pre as int, (pre + len) as int);
    if pre == 0 {
        assert(buf.subrange(0, 1) =~= payload);
    } else {
        if !list && len == 1 {
            assert(payload[0] == buf[1]);
        }
        assert(buf.subrange(0, (pre + len) as int) =~= buf.subrange(0, pre as int) + payload);
    }
}

/// The number that at most eight big-endian bytes stand for.
pub fn be_value_of(s: &[u8]) -> (r: u64)
    requires
        s@.len() <= 8,
    ensures
        r as nat == be_value(s@),
{
    let mut v: u64 = 0;
    let mut i: usize = 0;
    while i < s.len()
        invariant
            0 <= i <= s@.len(),
            s@.len() <= 8,
            v as nat == be_value(s@.subrange(0, i as int)),
            v < pow256(i as nat),
        decreases s@.len() - i,
    {
        proof {
            lemma_pow256_mono(i as nat, 7);
            lemma_pow256_8();
            assert(s@.subrange(0, i + 1).drop_last() =~= s@.subrange(0, i as int));
            assert(v * 256 + s@[i as int] < 256 * pow256(i as nat)) by (nonlinear_arith)
                requires
                    v < pow256(i as nat),
                    s@[i as int] < 256,
            ;
        }
        v = v * 256 + s[i] as u64;
        i += 1;
    }
    proof {
        assert(s@.subrange(0, s@.len() as int) =~= s@);
    }
    v
}

/// Truncation: any strict prefix of an item that decodes is refused with
/// `InputTooShort`.
pub proof fn lemma_truncation_rejected(buf: Seq<u8>, max: nat, k: nat)
    requires
        decode_item(buf, max) is Ok,
        k < decode_item(buf, max)->Ok_0.2,
    ensures
        decode_item(buf.subrange(0, k as int), max) == Err::<(bool, Seq<u8>, nat), Error>(
            Error::InputTooShort,
        ),
{
    let t = buf.subrange(0, k as int);
    if k > 0 {
        assert(t[0] == buf[0]);
        if buf[0] >= 0xb8 && buf[0] < 0xc0 || buf[0] >= 0xf8 {
            let lol: nat = if buf[0] >= 0xf8 {
                (buf[0] - 0xf7) as nat
            } else {
                (buf[0] - 0xb7) as nat
            };
            if t.len() >= 1 + lol {
                assert(t[1] == buf[1]);
                assert(t.subrange(1, 1 + lol as int) =~= buf.subrange(1, 1 + lol as int));
            }
        }
    }
}

/// Non-minimality: a long-form length whose first byte is zero, or whose
/// value would fit the short form, is refused with `NonMinimalEncoding`.
pub proof fn lemma_non_minimal_rejected(buf: Seq<u8>, max: nat)
    requires
        buf.len() >= 1,
        buf[0] >= 0xb8 && buf[0] < 0xc0 || buf[0] >= 0xf8,
        ({
            let lol = if buf[0] >= 0xf8 { buf[0] - 0xf7 } else { buf[0] - 0xb7 };
            buf.len() >= 1 + lol && (buf[1] == 0 || be_value(buf.subrange(1, 1 + lol)) < 56)
        }),
    ensures
        parse_header(buf, max) == Err::<(bool, nat, nat), Error>(Error::NonMinimalEncoding),
{
}

} // verus!
