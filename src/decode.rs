//! The decoder: canonical RLP bytes back to native values, with strict
//! rejection of malformed and non-canonical input.

use vstd::prelude::*;
use vstd::slice::{slice_subrange, slice_to_vec};
use vstd::utf8::{decode_utf8, encode_utf8, valid_utf8};
use crate::error::Error;
use crate::encode::{items_payload, Encode};
use crate::length::{
    be_bytes, be_value, be_value_of, decode_item, encode_item, pow256, read_length,
    lemma_be_bytes_leading, lemma_be_bytes_len, lemma_be_value_bound, lemma_be_value_of_bytes,
    lemma_bytes_of_be_value, lemma_item_canonical, lemma_item_round_trip, lemma_pow256_8,
    lemma_pow256_mono,
};
use crate::MAX_LENGTH;

verus! {

/// Types that can be decoded from RLP bytes.
pub trait Decode: Sized + DeepView + Encode {
    /// What decoding one value from the front of `buf` gives: the value and
    /// the number of bytes it took, or the error.
    spec fn decoded(buf: Seq<u8>, max: nat) -> Result<(<Self as DeepView>::V, nat), Error>;

    /// Whether every payload within the value is at most `max` bytes long,
    /// so that a decoder with that ceiling accepts its encoding.
    spec fn fits(&self, max: nat) -> bool;

    /// The canonical encoding of a value, given as what decoding yields.
    spec fn view_encoding(dv: <Self as DeepView>::V) -> Seq<u8>;

    /// The encoding of a value depends on its deep view alone.
    proof fn lemma_view_encoding(v: Self)
        ensures
            v.encoding() == Self::view_encoding(v.deep_view()),
    ;

    /// Canonical uniqueness: the bytes that decode to a value are exactly
    /// that value's canonical encoding.
    proof fn lemma_canonical(buf: Seq<u8>, max: nat)
        requires
            Self::decoded(buf, max) is Ok,
        ensures
            ({
                let (dv, n) = Self::decoded(buf, max)->Ok_0;
                n <= buf.len() && buf.subrange(0, n as int) == Self::view_encoding(dv)
            }),
    ;

    /// Round trip: the encoding of a value that fits the ceiling is decoded
    /// back to that value, taking exactly its own (non-empty) bytes,
    /// whatever follows them.
    proof fn lemma_round_trip(v: Self, rest: Seq<u8>, max: nat)
        requires
            v.fits(max),
        ensures
            v.encoding().len() > 0,
            Self::decoded(v.encoding() + rest, max) == Ok::<(<Self as DeepView>::V, nat), Error>(
                (v.deep_view(), v.encoding().len()),
            ),
    ;

    /// Decodes one value from the front of `buf`, with payloads of at most
    /// `max` bytes; returns the value and the number of bytes it took.
    fn decode_from(buf: &[u8], max: usize) -> (r: Result<(Self, usize), Error>)
        ensures
            match r {
                Ok((v, n)) => Self::decoded(buf@, max as nat) == Ok::<(<Self as DeepView>::V, nat), Error>(
                    (v.deep_view(), n as nat),
                ),
                Err(e) => Self::decoded(buf@, max as nat) == Err::<(<Self as DeepView>::V, nat), Error>(e),
            },
    ;
}

/// The unsigned integer of at most `width` bytes at the start of `buf`: a
/// byte string of its minimal big-endian bytes.
pub open spec fn decode_uint(buf: Seq<u8>, max: nat, width: nat) -> Result<(nat, nat), Error> {
    match decode_item(buf, max) {
        Err(e) => Err(e),
        Ok((list, p, n)) => {
            if list {
                Err(Error::UnexpectedList)
            } else if p.len() > width {
                Err(Error::InvalidLength)
            } else if p.len() > 0 && p[0] == 0 {
                Err(Error::NonMinimalEncoding)
            } else {
                Ok((be_value(p), n))
            }
        },
    }
}

/// The byte string at the start of `buf`: its bytes and how many bytes it took.
pub open spec fn decode_bytes_spec(buf: Seq<u8>, max: nat) -> Result<(Seq<u8>, nat), Error> {
    match decode_item(buf, max) {
        Err(e) => Err(e),
        Ok((list, p, n)) => {
            if list {
                Err(Error::UnexpectedList)
            } else {
                Ok((p, n))
            }
        },
    }
}

/// Decodes the byte string at the start of `buf`; returns its bytes and the
/// number of bytes it took.
pub fn decode_bytes(buf: &[u8], max: usize) -> (r: Result<(Vec<u8>, usize), Error>)
    ensures
        match r {
            Ok((b, n)) => decode_bytes_spec(buf@, max as nat) == Ok::<(Seq<u8>, nat), Error>(
                (b@, n as nat),
            ),
            Err(e) => decode_bytes_spec(buf@, max as nat) == Err::<(Seq<u8>, nat), Error>(e),
        },
{
    let h = match read_length(buf, max) {
        Ok(h) => h,
        Err(e) => return Err(e),
    };
    if h.list {
        return Err(Error::UnexpectedList);
    }
    let end = h.offset + h.len;
    let payload = slice_subrange(buf, h.offset, end);
    Ok((slice_to_vec(payload), end))
}

/// Decodes an unsigned integer of at most `width` bytes.
fn decode_uint_exec(buf: &[u8], max: usize, width: usize) -> (r: Result<(u64, usize), Error>)
    requires
        width <= 8,
    ensures
        match r {
            Ok((v, n)) => decode_uint(buf@, max as nat, width as nat) == Ok::<(nat, nat), Error>(
                (v as nat, n as nat),
            ) && (v as nat) < pow256(width as nat),
            Err(e) => decode_uint(buf@, max as nat, width as nat) == Err::<(nat, nat), Error>(e),
        },
{
    let h = match read_length(buf, max) {
        Ok(h) => h,
        Err(e) => return Err(e),
    };
    if h.list {
        return Err(Error::UnexpectedList);
    }
    if h.len > width {
        return Err(Error::InvalidLength);
    }
    let end = h.offset + h.len;
    let payload = slice_subrange(buf, h.offset, end);
    if payload.len() > 0 && payload[0] == 0 {
        return Err(Error::NonMinimalEncoding);
    }
    let v = be_value_of(payload);
    proof {
        crate::length::lemma_be_value_bound(payload@);
        crate::length::lemma_pow256_mono(payload@.len(), width as nat);
    }
    Ok((v, end))
}

impl Decode for u8 {
    open spec fn decoded(buf: Seq<u8>, max: nat) -> Result<(u8, nat), Error> {
        match decode_uint(buf, max, 1) {
            Ok((v, n)) => Ok((v as u8, n)),
            Err(e) => Err(e),
        }
    }

    open spec fn view_encoding(dv: u8) -> Seq<u8> {
        encode_item(false, be_bytes(dv as nat))
    }

    proof fn lemma_view_encoding(v: Self) {
    }

    proof fn lemma_canonical(buf: Seq<u8>, max: nat) {
        let (list, p, n) = decode_item(buf, max)->Ok_0;
        lemma_item_canonical(buf, max);
        lemma_bytes_of_be_value(p);
        lemma_be_value_bound(p);
        lemma_pow256_mono(p.len(), 1);
        reveal_with_fuel(pow256, 2);
    }

    open spec fn fits(&self, max: nat) -> bool {
        be_bytes(*self as nat).len() <= max
    }

    proof fn lemma_round_trip(v: Self, rest: Seq<u8>, max: nat) {
        let be = be_bytes(v as nat);
        reveal_with_fuel(pow256, 2);
        lemma_be_bytes_len(v as nat, 1);
        lemma_be_value_of_bytes(v as nat);
        if v > 0 {
            lemma_be_bytes_leading(v as nat);
        }
        lemma_item_round_trip(false, be, rest, max);
    }

    fn decode_from(buf: &[u8], max: usize) -> (r: Result<(u8, usize), Error>) {
        match decode_uint_exec(buf, max, 1) {
            Ok((v, n)) => {
                proof {
                    reveal_with_fuel(pow256, 2);
                }
                Ok((v as u8, n))
            },
            Err(e) => Err(e),
        }
    }
}

impl Decode for u64 {
    open spec fn decoded(buf: Seq<u8>, max: nat) -> Result<(u64, nat), Error> {
        match decode_uint(buf, max, 8) {
            Ok((v, n)) => Ok((v as u64, n)),
            Err(e) => Err(e),
        }
    }

    open spec fn view_encoding(dv: u64) -> Seq<u8> {
        encode_item(false, be_bytes(dv as nat))
    }

    proof fn lemma_view_encoding(v: Self) {
    }

    proof fn lemma_canonical(buf: Seq<u8>, max: nat) {
        let (list, p, n) = decode_item(buf, max)->Ok_0;
        lemma_item_canonical(buf, max);
        lemma_bytes_of_be_value(p);
        lemma_be_value_bound(p);
        lemma_pow256_mono(p.len(), 8);
        lemma_pow256_8();
    }

    open spec fn fits(&self, max: nat) -> bool {
        be_bytes(*self as nat).len() <= max
    }

    proof fn lemma_round_trip(v: Self, rest: Seq<u8>, max: nat) {
        let be = be_bytes(v as nat);
        lemma_pow256_8();
        lemma_be_bytes_len(v as nat, 8);
        lemma_be_value_of_bytes(v as nat);
        if v > 0 {
            lemma_be_bytes_leading(v as nat);
        }
        lemma_item_round_trip(false, be, rest, max);
    }

    fn decode_from(buf: &[u8], max: usize) -> (r: Result<(u64, usize), Error>) {
        decode_uint_exec(buf, max, 8)
    }
}

/// Relies on `String::from_utf8`: it accepts exactly the valid UTF-8 byte
/// sequences, and the string it returns holds those very bytes.
#[verifier::external_body]
fn string_from_utf8(bytes: Vec<u8>) -> (r: Option<String>)
    ensures
        match r {
            Some(s) => valid_utf8(bytes@) && encode_utf8(s@) == bytes@,
            None => !valid_utf8(bytes@),
        },
{
    String::from_utf8(bytes).ok()
}

impl Decode for String {
    open spec fn decoded(buf: Seq<u8>, max: nat) -> Result<(Seq<char>, nat), Error> {
        match decode_bytes_spec(buf, max) {
            Err(e) => Err(e),
            Ok((p, n)) => {
                if valid_utf8(p) {
                    Ok((decode_utf8(p), n))
                } else {
                    Err(Error::InvalidUtf8)
                }
            },
        }
    }

    open spec fn view_encoding(dv: Seq<char>) -> Seq<u8> {
        encode_item(false, encode_utf8(dv))
    }

    proof fn lemma_view_encoding(v: Self) {
    }

    proof fn lemma_canonical(buf: Seq<u8>, max: nat) {
        let (list, p, n) = decode_item(buf, max)->Ok_0;
        lemma_item_canonical(buf, max);
        vstd::utf8::decode_utf8_encode_utf8(p);
    }

    open spec fn fits(&self, max: nat) -> bool {
        encode_utf8(self@).len() <= max && encode_utf8(self@).len() <= u64::MAX
    }

    proof fn lemma_round_trip(v: Self, rest: Seq<u8>, max: nat) {
        vstd::utf8::encode_utf8_valid_utf8(v@);
        vstd::utf8::encode_utf8_decode_utf8(v@);
        lemma_item_round_trip(false, encode_utf8(v@), rest, max);
    }

    fn decode_from(buf: &[u8], max: usize) -> (r: Result<(String, usize), Error>) {
        let (bytes, n) = match decode_bytes(buf, max) {
            Ok(t) => t,
            Err(e) => return Err(e),
        };
        match string_from_utf8(bytes) {
            Some(s) => {
                proof {
                    vstd::utf8::encode_utf8_decode_utf8(s@);
                }
                Ok((s, n))
            },
            None => Err(Error::InvalidUtf8),
        }
    }
}

/// Prepends decoded items to the outcome of decoding the rest of a list.
pub open spec fn prepend<V>(front: Seq<V>, r: Result<Seq<V>, Error>) -> Result<Seq<V>, Error> {
    match r {
        Ok(vs) => Ok(front + vs),
        Err(e) => Err(e),
    }
}

/// The items of a list payload, decoded one after the other until the
/// payload is used up exactly. An item that would run past the payload's end
/// is an `InvalidLength`.
pub open spec fn decode_items<T: Decode>(payload: Seq<u8>, max: nat) -> Result<Seq<<T as DeepView>::V>, Error>
    decreases payload.len(),
{
    if payload.len() == 0 {
        Ok(Seq::empty())
    } else {
        match T::decoded(payload, max) {
            Err(e) => {
                if e == Error::InputTooShort {
                    Err(Error::InvalidLength)
                } else {
                    Err(e)
                }
            },
            Ok((v, n)) => {
                if n == 0 || n > payload.len() {
                    Err(Error::InvalidLength)
                } else {
                    prepend(seq![v], decode_items::<T>(payload.subrange(n as int, payload.len() as int), max))
                }
            },
        }
    }
}

/// A list payload splits after its first item's encoding.
pub proof fn lemma_items_payload_first<T: Encode>(s: Seq<T>)
    requires
        s.len() > 0,
    ensures
        items_payload(s) == s[0].encoding() + items_payload(s.drop_first()),
    decreases s.len(),
{
    if s.len() > 1 {
        lemma_items_payload_first(s.drop_last());
        assert(s.drop_last().drop_first() =~= s.drop_first().drop_last());
        assert(s.drop_first().last() == s.last());
        assert(s.drop_last()[0] == s[0]);
    } else {
        assert(s.drop_first() =~= Seq::<T>::empty());
        assert(s.drop_last() =~= Seq::<T>::empty());
    }
}

/// The items' encodings, concatenated, are decoded back to the items.
pub proof fn lemma_items_round_trip<T: Decode>(s: Seq<T>, max: nat)
    requires
        forall|i: int| 0 <= i < s.len() ==> #[trigger] s[i].fits(max),
    ensures
        decode_items::<T>(items_payload(s), max) == Ok::<Seq<<T as DeepView>::V>, Error>(
            Seq::new(s.len(), |i: int| s[i].deep_view()),
        ),
    decreases s.len(),
{
    if s.len() == 0 {
        assert(Seq::new(s.len(), |i: int| s[i].deep_view()) =~= Seq::<<T as DeepView>::V>::empty());
    } else {
        let tail = s.drop_first();
        let first = s[0].encoding();
        let rest = items_payload(tail);
        lemma_items_payload_first(s);
        assert(s[0].fits(max));
        T::lemma_round_trip(s[0], rest, max);
        assert forall|i: int| 0 <= i < tail.len() implies #[trigger] tail[i].fits(max) by {
            assert(tail[i] == s[i + 1]);
        }
        lemma_items_round_trip::<T>(tail, max);
        let payload = first + rest;
        assert(payload.subrange(first.len() as int, payload.len() as int) =~= rest);
        assert(seq![s[0].deep_view()] + Seq::new(tail.len(), |i: int| tail[i].deep_view())
            =~= Seq::new(s.len(), |i: int| s[i].deep_view()));
    }
}

/// The payload of a list of decoded items: their canonical encodings, in order.
pub open spec fn views_payload<T: Decode>(dvs: Seq<<T as DeepView>::V>) -> Seq<u8>
    decreases dvs.len(),
{
    if dvs.len() == 0 {
        Seq::empty()
    } else {
        T::view_encoding(dvs[0]) + views_payload::<T>(dvs.drop_first())
    }
}

/// A list's payload depends on its items' deep views alone.
pub proof fn lemma_items_view_payload<T: Decode>(s: Seq<T>)
    ensures
        items_payload(s) == views_payload::<T>(Seq::new(s.len(), |i: int| s[i].deep_view())),
    decreases s.len(),
{
    let dvs = Seq::new(s.len(), |i: int| s[i].deep_view());
    if s.len() == 0 {
    } else {
        let tail = s.drop_first();
        lemma_items_payload_first(s);
        T::lemma_view_encoding(s[0]);
        lemma_items_view_payload::<T>(tail);
        assert(dvs.drop_first() =~= Seq::new(tail.len(), |i: int| tail[i].deep_view()));
    }
}

/// The bytes of a list payload that decodes to some items are exactly
/// those items' canonical encodings.
pub proof fn lemma_items_canonical<T: Decode>(p: Seq<u8>, max: nat)
    requires
        decode_items::<T>(p, max) is Ok,
    ensures
        p == views_payload::<T>(decode_items::<T>(p, max)->Ok_0),
    decreases p.len(),
{
    if p.len() > 0 {
        let (dv, k) = T::decoded(p, max)->Ok_0;
        let tail = p.subrange(k as int, p.len() as int);
        T::lemma_canonical(p, max);
        lemma_items_canonical::<T>(tail, max);
        let dvs = decode_items::<T>(p, max)->Ok_0;
        let tdvs = decode_items::<T>(tail, max)->Ok_0;
        assert(dvs =~= seq![dv] + tdvs);
        assert(dvs.drop_first() =~= tdvs);
        assert(p =~= p.subrange(0, k as int) + tail);
    } else {
        assert(decode_items::<T>(p, max)->Ok_0 =~= Seq::<<T as DeepView>::V>::empty());
    }
}

impl<T: Decode> Decode for Vec<T> {
    open spec fn decoded(buf: Seq<u8>, max: nat) -> Result<(Seq<<T as DeepView>::V>, nat), Error> {
        match decode_item(buf, max) {
            Err(e) => Err(e),
            Ok((list, p, n)) => {
                if !list {
                    Err(Error::UnexpectedString)
                } else {
                    match decode_items::<T>(p, max) {
                        Ok(vs) => Ok((vs, n)),
                        Err(e) => Err(e),
                    }
                }
            },
        }
    }

    open spec fn view_encoding(dv: Seq<<T as DeepView>::V>) -> Seq<u8> {
        encode_item(true, views_payload::<T>(dv))
    }

    proof fn lemma_view_encoding(v: Self) {
        lemma_items_view_payload::<T>(v@);
        assert(v.deep_view() =~= Seq::new(v@.len(), |i: int| v@[i].deep_view()));
    }

    proof fn lemma_canonical(buf: Seq<u8>, max: nat) {
        let (list, p, n) = decode_item(buf, max)->Ok_0;
        lemma_item_canonical(buf, max);
        lemma_items_canonical::<T>(p, max);
    }

    open spec fn fits(&self, max: nat) -> bool {
        &&& items_payload(self@).len() <= max
        &&& items_payload(self@).len() <= u64::MAX
        &&& forall|i: int| 0 <= i < self@.len() ==> #[trigger] self@[i].fits(max)
    }

    proof fn lemma_round_trip(v: Self, rest: Seq<u8>, max: nat) {
        let payload = items_payload(v@);
        lemma_item_round_trip(true, payload, rest, max);
        lemma_items_round_trip::<T>(v@, max);
        assert(v.deep_view() =~= Seq::new(v@.len(), |i: int| v@[i].deep_view()));
    }

    fn decode_from(buf: &[u8], max: usize) -> (r: Result<(Vec<T>, usize), Error>) {
        let h = match read_length(buf, max) {
            Ok(h) => h,
            Err(e) => return Err(e),
        };
        if !h.list {
            return Err(Error::UnexpectedString);
        }
        let end = h.offset + h.len;
        let payload = slice_subrange(buf, h.offset, end);
        proof {
            assert(decode_item(buf@, max as nat) == Ok::<(bool, Seq<u8>, nat), Error>(
                (true, payload@, end as nat),
            ));
        }
        let mut items: Vec<T> = Vec::new();
        let mut pos: usize = 0;
        proof {
            assert(payload@.subrange(0, payload@.len() as int) =~= payload@);
            assert(items.deep_view() =~= Seq::<<T as DeepView>::V>::empty());
        }
        while pos < payload.len()
            invariant
                pos <= payload@.len(),
                decode_item(buf@, max as nat) == Ok::<(bool, Seq<u8>, nat), Error>(
                    (true, payload@, end as nat),
                ),
                decode_items::<T>(payload@, max as nat) == prepend(
                    items.deep_view(),
                    decode_items::<T>(payload@.subrange(pos as int, payload@.len() as int), max as nat),
                ),
            decreases payload@.len() - pos,
        {
            let rest = slice_subrange(payload, pos, payload.len());
            assert(rest@ == payload@.subrange(pos as int, payload@.len() as int));
            match T::decode_from(rest, max) {
                Ok((v, n)) => {
                    if n == 0 || n > rest.len() {
                        assert(decode_items::<T>(rest@, max as nat) == Err::<Seq<<T as DeepView>::V>, Error>(
                            Error::InvalidLength,
                        ));
                        return Err(Error::InvalidLength);
                    }
                    let ghost old_items = items.deep_view();
                    let ghost dv = v.deep_view();
                    items.push(v);
                    proof {
                        assert(rest@.subrange(n as int, rest@.len() as int) =~= payload@.subrange(
                            pos + n,
                            payload@.len() as int,
                        ));
                        assert(items.deep_view() =~= old_items + seq![dv]);
                        let tail = decode_items::<T>(rest@.subrange(n as int, rest@.len() as int), max as nat);
                        match tail {
                            Ok(vs) => {
                                assert(old_items + (seq![dv] + vs) =~= (old_items + seq![dv]) + vs);
                            },
                            Err(_) => {},
                        }
                    }
                    pos = pos + n;
                },
                Err(e) => {
                    if e == Error::InputTooShort {
                        assert(decode_items::<T>(rest@, max as nat) == Err::<Seq<<T as DeepView>::V>, Error>(
                            Error::InvalidLength,
                        ));
                        return Err(Error::InvalidLength);
                    }
                    assert(decode_items::<T>(rest@, max as nat) == Err::<Seq<<T as DeepView>::V>, Error>(e));
                    return Err(e);
                },
            }
        }
        proof {
            assert(payload@.subrange(pos as int, payload@.len() as int).len() == 0);
            assert(items.deep_view() + Seq::<<T as DeepView>::V>::empty() =~= items.deep_view());
        }
        Ok((items, end))
    }
}

/// Decodes `buf` as exactly one value of type `T`, with payloads of at most
/// `max` bytes: bytes left over after the value are an `UnexpectedTrailing`.
pub fn decode_with_max<T: Decode>(buf: &[u8], max: usize) -> (r: Result<T, Error>)
    ensures
        match T::decoded(buf@, max as nat) {
            Ok((v, n)) => if n == buf@.len() {
                r is Ok && r->Ok_0.deep_view() == v
            } else {
                r == Err::<T, Error>(Error::UnexpectedTrailing)
            },
            Err(e) => r == Err::<T, Error>(e),
        },
{
    match T::decode_from(buf, max) {
        Ok((v, n)) => {
            if n == buf.len() {
                Ok(v)
            } else {
                Err(Error::UnexpectedTrailing)
            }
        },
        Err(e) => Err(e),
    }
}

/// Decodes `buf` as exactly one value of type `T`, with the default ceiling
/// on payload length.
pub fn decode<T: Decode>(buf: &[u8]) -> (r: Result<T, Error>)
    ensures
        match T::decoded(buf@, MAX_LENGTH as nat) {
            Ok((v, n)) => if n == buf@.len() {
                r is Ok && r->Ok_0.deep_view() == v
            } else {
                r == Err::<T, Error>(Error::UnexpectedTrailing)
            },
            Err(e) => r == Err::<T, Error>(e),
        },
{
    decode_with_max(buf, MAX_LENGTH)
}







/// Round trip of whole buffers: decoding the encoding of a value that fits
/// the ceiling takes all of it and gives the value back, so `decode_with_max`
/// returns it.
pub proof fn lemma_decode_encode<T: Decode>(v: T, max: nat)
    requires
        v.fits(max),
    ensures
        T::decoded(v.encoding(), max) == Ok::<(<T as DeepView>::V, nat), Error>(
            (v.deep_view(), v.encoding().len()),
        ),
{
    T::lemma_round_trip(v, Seq::empty(), max);
    assert(v.encoding() + Seq::empty() =~= v.encoding());
}

/// Canonical uniqueness of whole buffers: a buffer that decodes as exactly one
/// value is that value's encoding, so no two buffers decode to the same value.
pub proof fn lemma_encode_decode<T: Decode>(buf: Seq<u8>, max: nat, v: T)
    requires
        T::decoded(buf, max) == Ok::<(<T as DeepView>::V, nat), Error>((v.deep_view(), buf.len())),
    ensures
        v.encoding() == buf,
{
    T::lemma_canonical(buf, max);
    T::lemma_view_encoding(v);
    assert(buf.subrange(0, buf.len() as int) =~= buf);
}

/// Trailing bytes: after the encoding of a value, any further byte leaves
/// part of the buffer unread, which `decode_with_max` reports as
/// `UnexpectedTrailing`.
pub proof fn lemma_trailing_rejected<T: Decode>(v: T, extra: Seq<u8>, max: nat)
    requires
        v.fits(max),
        extra.len() > 0,
    ensures
        ({
            let buf = v.encoding() + extra;
            &&& T::decoded(buf, max) is Ok
            &&& T::decoded(buf, max)->Ok_0.1 < buf.len()
        }),
{
    T::lemma_round_trip(v, extra, max);
}

} // verus!
