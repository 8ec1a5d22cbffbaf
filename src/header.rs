//! The record that describes a search tree.

use crate::codec::{decode_from, encode_into, u16_decoding, u16_encoding, u32_decoding, u32_encoding, Codec};
use crate::node::widths_fit;
use crate::storage::Offset;
use vstd::prelude::*;

verus! {

/// Encoded width of a [`Header`].
pub const HEADER_LEN: u32 = 12;

/// Tree metadata as stored: item count, key and value widths, root offset.
///
/// Layout: `items` (4 bytes), `key_len` (2), `value_len` (2),
/// `root_offset` (4).
#[derive(Debug, Clone, Copy, PartialEq, Eq, Structural)]
pub struct Header {
    /// Number of nodes reachable from the root.
    pub items: u32,
    /// Encoded width of a key.
    pub key_len: u16,
    /// Encoded width of a value.
    pub value_len: u16,
    /// Offset of the root node; 0 when the tree is empty.
    pub root_offset: Offset,
}

impl Header {
    /// The header of an empty tree with keys of type `K` and values of type `V`.
    pub fn new<K: Codec, V: Codec>() -> (r: Header)
        requires
            widths_fit::<K, V>(),
        ensures
            r == (Header { items: 0, key_len: K::width() as u16, value_len: V::width() as u16, root_offset: 0 }),
    {
        Header { items: 0, key_len: K::packed_len() as u16, value_len: V::packed_len() as u16, root_offset: 0 }
    }
}

impl Codec for Header {
    open spec fn width() -> nat {
        12
    }

    open spec fn encoding(&self) -> Seq<u8> {
        u32_encoding(self.items) + u16_encoding(self.key_len) + u16_encoding(self.value_len)
            + u32_encoding(self.root_offset)
    }

    open spec fn decoding(b: Seq<u8>) -> Header {
        Header {
            items: u32_decoding(b.subrange(0, 4)),
            key_len: u16_decoding(b.subrange(4, 6)),
            value_len: u16_decoding(b.subrange(6, 8)),
            root_offset: u32_decoding(b.subrange(8, 12)),
        }
    }

    fn packed_len() -> (r: u32) {
        HEADER_LEN
    }

    fn to_bytes(&self, bytes: &mut [u8]) {
        proof {
            <u32 as Codec>::lemma_round_trip(self.items);
            <u16 as Codec>::lemma_round_trip(self.key_len);
            <u16 as Codec>::lemma_round_trip(self.value_len);
            <u32 as Codec>::lemma_round_trip(self.root_offset);
        }
        encode_into(&self.items, bytes, 0);
        encode_into(&self.key_len, bytes, 4);
        encode_into(&self.value_len, bytes, 6);
        encode_into(&self.root_offset, bytes, 8);
        assert(bytes@ =~= self.encoding());
    }

    fn from_bytes(bytes: &[u8]) -> (r: Header) {
        let items: u32 = decode_from(bytes, 0);
        let key_len: u16 = decode_from(bytes, 4);
        let value_len: u16 = decode_from(bytes, 6);
        let root_offset: u32 = decode_from(bytes, 8);
        Header { items, key_len, value_len, root_offset }
    }

    proof fn lemma_round_trip(v: Header) {
        <u32 as Codec>::lemma_round_trip(v.items);
        <u16 as Codec>::lemma_round_trip(v.key_len);
        <u16 as Codec>::lemma_round_trip(v.value_len);
        <u32 as Codec>::lemma_round_trip(v.root_offset);
        let e = v.encoding();
        assert(e.subrange(0, 4) =~= u32_encoding(v.items));
        assert(e.subrange(4, 6) =~= u16_encoding(v.key_len));
        assert(e.subrange(6, 8) =~= u16_encoding(v.value_len));
        assert(e.subrange(8, 12) =~= u32_encoding(v.root_offset));
    }
}

} // verus!
