//! The record of one tree element.

use crate::codec::{decode_from, encode_into, u32_decoding, u32_encoding, Codec};
use crate::storage::Offset;
use vstd::prelude::*;

verus! {

/// Key and value widths that a header can record.
pub open spec fn widths_fit<K: Codec, V: Codec>() -> bool {
    K::width() <= 0xFFFF && V::width() <= 0xFFFF
}

/// Encoded width of a node: two child offsets, the key and the value.
pub open spec fn node_len<K: Codec, V: Codec>() -> nat {
    8 + K::width() + V::width()
}

/// One tree element as stored.
///
/// Layout: `left` (4 bytes), `right` (4), the key, the value.
pub struct Node<K, V> {
    /// Offset of the left child; 0 when absent.
    pub left: Offset,
    /// Offset of the right child; 0 when absent.
    pub right: Offset,
    pub key: K,
    pub value: V,
}

impl<K: Codec, V: Codec> Node<K, V> {
    /// A node without children.
    pub fn new(key: K, value: V) -> (r: Self)
        ensures
            r == (Node { left: 0, right: 0, key, value }),
    {
        Node { left: 0, right: 0, key, value }
    }

    pub open spec fn encoding(&self) -> Seq<u8> {
        u32_encoding(self.left) + u32_encoding(self.right) + self.key.encoding()
            + self.value.encoding()
    }

    pub open spec fn decoding(b: Seq<u8>) -> Self {
        Node {
            left: u32_decoding(b.subrange(0, 4)),
            right: u32_decoding(b.subrange(4, 8)),
            key: K::decoding(b.subrange(8, 8 + K::width() as int)),
            value: V::decoding(b.subrange(8 + K::width() as int, 8 + K::width() + V::width() as int)),
        }
    }

    /// Returns the encoded width of a node.
    pub fn packed_len() -> (r: u32)
        requires
            widths_fit::<K, V>(),
        ensures
            r as nat == node_len::<K, V>(),
    {
        8 + K::packed_len() + V::packed_len()
    }

    /// Writes the encoding of `self` into `bytes`, whose length is the width.
    pub fn to_bytes(&self, bytes: &mut [u8])
        requires
            widths_fit::<K, V>(),
            old(bytes)@.len() == node_len::<K, V>(),
        ensures
            final(bytes)@ == self.encoding(),
    {
        proof {
            K::lemma_round_trip(self.key);
            V::lemma_round_trip(self.value);
        }
        let kw = K::packed_len() as usize;
        let ghost kwi = K::width() as int;
        let ghost vwi = V::width() as int;
        encode_into(&self.left, bytes, 0);
        encode_into(&self.right, bytes, 4);
        let ghost b2 = bytes@;
        assert(b2.subrange(0, 4) =~= u32_encoding(self.left));
        assert(b2.subrange(4, 8) =~= u32_encoding(self.right));
        encode_into(&self.key, bytes, 8);
        let ghost b3 = bytes@;
        assert(b3.subrange(0, 8) =~= b2.subrange(0, 8));
        assert(b3.subrange(8, 8 + kwi) =~= self.key.encoding());
        encode_into(&self.value, bytes, 8 + kw);
        let ghost b4 = bytes@;
        assert(b4.subrange(0, 8 + kwi) =~= b3.subrange(0, 8 + kwi));
        assert(b4.subrange(8 + kwi, 8 + kwi + vwi) =~= self.value.encoding());
        assert(bytes@ =~= self.encoding()) by {
            assert forall|i: int| 0 <= i < bytes@.len() implies bytes@[i] == self.encoding()[i] by {
                if i < 4 {
                    assert(b2.subrange(0, 4)[i] == b4[i]);
                } else if i < 8 {
                    assert(b2.subrange(4, 8)[i - 4] == b4[i]);
                } else if i < 8 + kwi {
                    assert(b3.subrange(8, 8 + kwi)[i - 8] == b4[i]);
                } else {
                    assert(b4.subrange(8 + kwi, 8 + kwi + vwi)[i - 8 - kwi] == b4[i]);
                }
            }
        }
    }

    /// Reads a node back from `bytes`, whose length is the width.
    pub fn from_bytes(bytes: &[u8]) -> (r: Self)
        requires
            widths_fit::<K, V>(),
            bytes@.len() == node_len::<K, V>(),
        ensures
            r == Self::decoding(bytes@),
    {
        let kw = K::packed_len() as usize;
        let left: u32 = decode_from(bytes, 0);
        let right: u32 = decode_from(bytes, 4);
        let key: K = decode_from(bytes, 8);
        let value: V = decode_from(bytes, 8 + kw);
        Node { left, right, key, value }
    }

    /// Decoding an encoding gives the node back.
    pub proof fn lemma_round_trip(v: Self)
        requires
            widths_fit::<K, V>(),
        ensures
            v.encoding().len() == node_len::<K, V>(),
            Self::decoding(v.encoding()) == v,
    {
        <u32 as Codec>::lemma_round_trip(v.left);
        <u32 as Codec>::lemma_round_trip(v.right);
        K::lemma_round_trip(v.key);
        V::lemma_round_trip(v.value);
        let e = v.encoding();
        let kw = K::width() as int;
        assert(e.subrange(0, 4) =~= u32_encoding(v.left));
        assert(e.subrange(4, 8) =~= u32_encoding(v.right));
        assert(e.subrange(8, 8 + kw) =~= v.key.encoding());
        assert(e.subrange(8 + kw, 8 + kw + V::width() as int) =~= v.value.encoding());
    }
}

} // verus!
