//! The encoder: native values to their canonical RLP bytes.

use vstd::prelude::*;
use vstd::string::StringSliceAdditionalSpecFns;
use crate::length::{be_bytes, encode_item, write_length};

verus! {

/// Types that can be RLP encoded.
pub trait Encode {
    /// The canonical RLP bytes of this value.
    spec fn encoding(&self) -> Seq<u8>;

    /// Append RLP encoded bytes to the provided buffer.
    fn encode_to(&self, out: &mut Vec<u8>)
        ensures
            final(out)@ == old(out)@ + self.encoding(),
    ;
}

/// Encode a value into RLP bytes.
pub fn encode<T: Encode + ?Sized>(value: &T) -> (r: Vec<u8>)
    ensures
        r@ == value.encoding(),
{
    let mut out: Vec<u8> = Vec::new();
    value.encode_to(&mut out);
    proof {
        assert(out@ =~= value.encoding());
    }
    out
}

/// Appends the canonical encoding of the byte string `b`.
pub fn encode_bytes_to(b: &[u8], out: &mut Vec<u8>)
    ensures
        final(out)@ == old(out)@ + encode_item(false, b@),
{
    let len = b.len();
    if len == 1 && b[0] < 0x80 {
        out.push(b[0]);
        proof {
            assert(final(out)@ =~= old(out)@ + encode_item(false, b@));
        }
    } else {
        write_length(false, len, out);
        out.extend_from_slice(b);
        proof {
            assert(final(out)@ =~= old(out)@ + encode_item(false, b@));
        }
    }
}

impl Encode for u8 {
    /// An integer is the byte string of its minimal big-endian bytes (empty for zero).
    open spec fn encoding(&self) -> Seq<u8> {
        encode_item(false, be_bytes(*self as nat))
    }

    fn encode_to(&self, out: &mut Vec<u8>) {
        let v = *self;
        proof {
            let n = v as nat;
            if n > 0 {
                assert(n / 256 == 0);
                assert(be_bytes(n) == be_bytes(0).push((n % 256) as u8));
                assert(be_bytes(n) =~= seq![v]);
            }
        }
        if v == 0 {
            out.push(0x80);
        } else if v <= 0x7f {
            out.push(v);
        } else {
            out.push(0x81);
            out.push(v);
        }
        proof {
            assert(final(out)@ =~= old(out)@ + self.encoding());
        }
    }
}

impl Encode for u64 {
    /// An integer is the byte string of its minimal big-endian bytes (empty for zero).
    open spec fn encoding(&self) -> Seq<u8> {
        encode_item(false, be_bytes(*self as nat))
    }

    fn encode_to(&self, out: &mut Vec<u8>) {
        let be = crate::length::be_bytes_of(*self);
        encode_bytes_to(be.as_slice(), out);
    }
}

impl Encode for [u8] {
    open spec fn encoding(&self) -> Seq<u8> {
        encode_item(false, self@)
    }

    fn encode_to(&self, out: &mut Vec<u8>) {
        encode_bytes_to(self, out);
    }
}

impl<const N: usize> Encode for [u8; N] {
    open spec fn encoding(&self) -> Seq<u8> {
        encode_item(false, self@)
    }

    fn encode_to(&self, out: &mut Vec<u8>) {
        encode_bytes_to(self.as_slice(), out);
    }
}

impl Encode for str {
    /// Text is the byte string of its UTF-8 bytes.
    open spec fn encoding(&self) -> Seq<u8> {
        encode_item(false, self.spec_bytes())
    }

    fn encode_to(&self, out: &mut Vec<u8>) {
        encode_bytes_to(self.as_bytes(), out);
    }
}

impl<'a> Encode for &'a str {
    open spec fn encoding(&self) -> Seq<u8> {
        encode_item(false, (*self).spec_bytes())
    }

    fn encode_to(&self, out: &mut Vec<u8>) {
        encode_bytes_to((*self).as_bytes(), out);
    }
}

impl Encode for String {
    open spec fn encoding(&self) -> Seq<u8> {
        encode_item(false, vstd::utf8::encode_utf8(self@))
    }

    fn encode_to(&self, out: &mut Vec<u8>) {
        encode_bytes_to(self.as_str().as_bytes(), out);
    }
}

/// The concatenated encodings of a sequence of items: a list's payload.
pub open spec fn items_payload<T: Encode>(items: Seq<T>) -> Seq<u8>
    decreases items.len(),
{
    if items.len() == 0 {
        Seq::empty()
    } else {
        items_payload(items.drop_last()) + items.last().encoding()
    }
}

impl<T: Encode> Encode for Vec<T> {
    /// A sequence is the list whose payload is its items' encodings, in order.
    open spec fn encoding(&self) -> Seq<u8> {
        encode_item(true, items_payload(self@))
    }

    fn encode_to(&self, out: &mut Vec<u8>) {
        let mut payload: Vec<u8> = Vec::new();
        let mut i: usize = 0;
        while i < self.len()
            invariant
                0 <= i <= self@.len(),
                payload@ == items_payload(self@.subrange(0, i as int)),
            decreases self@.len() - i,
        {
            self[i].encode_to(&mut payload);
            proof {
                let s = self@.subrange(0, i + 1);
                assert(s.drop_last() =~= self@.subrange(0, i as int));
                assert(s.last() == self@[i as int]);
            }
            i += 1;
        }
        proof {
            assert(self@.subrange(0, self@.len() as int) =~= self@);
        }
        write_length(true, payload.len(), out);
        out.extend_from_slice(payload.as_slice());
        proof {
            assert(final(out)@ =~= old(out)@ + self.encoding());
        }
    }
}

} // verus!
