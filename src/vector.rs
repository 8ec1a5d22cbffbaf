//! An append-only array stored at a fixed offset of a region.
//!
//! A 16-byte header (magic word, reserved half-word, element width, length,
//! capacity) is followed by the elements, each at its fixed slot.

use core::marker::PhantomData;
use crate::codec::{overwrite, u16_decoding, u16_encoding, u32_decoding, u32_encoding, decode_from, encode_into, Codec};
use crate::storage::{read_record, storage_ok, write_record, Error, Offset, Storage};
use vstd::prelude::*;

verus! {

/// The word that opens every vector header.
pub const VEC_MAGIC: u32 = 0xb3000000;

/// Encoded width of a [`VecHeader`].
pub const VEC_HEADER_LEN: u32 = 16;

/// Vector metadata as stored.
///
/// Layout: `boom` (4 bytes), `reserved` (2), `value_len` (2), `size` (4),
/// `capacity` (4).
#[derive(Debug, Clone, Copy, PartialEq, Eq, Structural)]
pub struct VecHeader {
    /// Always `VEC_MAGIC`.
    pub boom: u32,
    /// Always 0.
    pub reserved: u16,
    /// Encoded width of an element.
    pub value_len: u16,
    /// Number of elements.
    pub size: u32,
    /// Most elements the vector can hold.
    pub capacity: u32,
}

impl VecHeader {
    /// The header of an empty vector.
    pub fn new(value_len: u16, capacity: u32) -> (r: VecHeader)
        ensures
            r == (VecHeader { boom: VEC_MAGIC, reserved: 0, value_len, size: 0, capacity }),
    {
        VecHeader { boom: VEC_MAGIC, reserved: 0, value_len, size: 0, capacity }
    }
}

impl Codec for VecHeader {
    open spec fn width() -> nat {
        16
    }

    open spec fn encoding(&self) -> Seq<u8> {
        u32_encoding(self.boom) + u16_encoding(self.reserved) + u16_encoding(self.value_len)
            + u32_encoding(self.size) + u32_encoding(self.capacity)
    }

    open spec fn decoding(b: Seq<u8>) -> VecHeader {
        VecHeader {
            boom: u32_decoding(b.subrange(0, 4)),
            reserved: u16_decoding(b.subrange(4, 6)),
            value_len: u16_decoding(b.subrange(6, 8)),
            size: u32_decoding(b.subrange(8, 12)),
            capacity: u32_decoding(b.subrange(12, 16)),
        }
    }

    fn packed_len() -> (r: u32) {
        VEC_HEADER_LEN
    }

    fn to_bytes(&self, bytes: &mut [u8]) {
        proof {
            <u32 as Codec>::lemma_round_trip(self.boom);
            <u16 as Codec>::lemma_round_trip(self.reserved);
            <u16 as Codec>::lemma_round_trip(self.value_len);
            <u32 as Codec>::lemma_round_trip(self.size);
            <u32 as Codec>::lemma_round_trip(self.capacity);
        }
        encode_into(&self.boom, bytes, 0);
        encode_into(&self.reserved, bytes, 4);
        encode_into(&self.value_len, bytes, 6);
        encode_into(&self.size, bytes, 8);
        encode_into(&self.capacity, bytes, 12);
        assert(bytes@ =~= self.encoding());
    }

    fn from_bytes(bytes: &[u8]) -> (r: VecHeader) {
        let boom: u32 = decode_from(bytes, 0);
        let reserved: u16 = decode_from(bytes, 4);
        let value_len: u16 = decode_from(bytes, 6);
        let size: u32 = decode_from(bytes, 8);
        let capacity: u32 = decode_from(bytes, 12);
        VecHeader { boom, reserved, value_len, size, capacity }
    }

    proof fn lemma_round_trip(v: VecHeader) {
        <u32 as Codec>::lemma_round_trip(v.boom);
        <u16 as Codec>::lemma_round_trip(v.reserved);
        <u16 as Codec>::lemma_round_trip(v.value_len);
        <u32 as Codec>::lemma_round_trip(v.size);
        <u32 as Codec>::lemma_round_trip(v.capacity);
        let e = v.encoding();
        assert(e.subrange(0, 4) =~= u32_encoding(v.boom));
        assert(e.subrange(4, 6) =~= u16_encoding(v.reserved));
        assert(e.subrange(6, 8) =~= u16_encoding(v.value_len));
        assert(e.subrange(8, 12) =~= u32_encoding(v.size));
        assert(e.subrange(12, 16) =~= u32_encoding(v.capacity));
    }
}

/// The vector header that the bytes at `offset` decode to.
pub open spec fn stored_vec_header(mem: Seq<u8>, offset: Offset) -> VecHeader {
    VecHeader::decoding(mem.subrange(offset as int, offset + VEC_HEADER_LEN))
}

/// Where element `i` of a vector at `off` with elements of width `w` starts.
pub open spec fn slot(off: Offset, i: int, w: nat) -> int {
    off + VEC_HEADER_LEN + i * w
}

/// Element `i` as the region holds it.
pub open spec fn element_at<V: Codec>(mem: Seq<u8>, off: Offset, i: int) -> V {
    V::decoding(mem.subrange(slot(off, i, V::width()), slot(off, i, V::width()) + V::width()))
}

/// Slots of earlier elements end before later ones start.
proof fn lemma_slots_ordered(i: int, j: int, w: nat)
    requires
        0 <= i < j,
    ensures
        i * w + w <= j * w,
{
    assert((i + 1) * w <= j * w) by (nonlinear_arith)
        requires
            i + 1 <= j,
    ;
    assert((i + 1) * w == i * w + w) by (nonlinear_arith);
}

/// A slot offset computed in 64 bits cannot overflow.
proof fn lemma_product_fits(n: nat, w: nat)
    requires
        n <= 0x1_0000_0000,
        w <= 0xFFFF,
    ensures
        n * w <= 0x1_0000_0000 * 0xFFFF,
{
    assert(n * w <= 0x1_0000_0000 * 0xFFFF) by (nonlinear_arith)
        requires
            n <= 0x1_0000_0000,
            w <= 0xFFFF,
    ;
}

/// A handle on a vector stored in a region.
pub struct StorageVec<V> {
    offset: Offset,
    header: VecHeader,
    _phantom: PhantomData<V>,
}

impl<V: Codec> StorageVec<V> {
    /// The handle matches the region: the cached header is the stored one,
    /// it records the width of `V`, and all elements fit in the region.
    pub closed spec fn wf<S: Storage>(self, s: &S) -> bool {
        let mem = s.region();
        &&& storage_ok(s)
        &&& V::width() <= 0xFFFF
        &&& self.offset + VEC_HEADER_LEN <= mem.len()
        &&& VecHeader::decoding(mem.subrange(self.offset as int, self.offset + VEC_HEADER_LEN)) == self.header
        &&& self.header.value_len == V::width()
        &&& self.header.size <= self.header.capacity
        &&& slot(self.offset, self.header.size as int, V::width()) <= mem.len()
    }

    /// The elements, as the region holds them.
    pub closed spec fn view<S: Storage>(self, s: &S) -> Seq<V> {
        Seq::new(self.header.size as nat, |i: int| element_at::<V>(s.region(), self.offset, i))
    }

    pub closed spec fn spec_len(self) -> nat {
        self.header.size as nat
    }

    /// The cached header.
    pub closed spec fn header_view(self) -> VecHeader {
        self.header
    }

    /// A well-formed handle mirrors the header stored at its offset, and
    /// holds as many elements as that header counts.
    pub proof fn lemma_stored_header<S: Storage>(self, s: &S)
        requires
            self.wf(s),
        ensures
            self.spec_offset() + VEC_HEADER_LEN <= s.region().len(),
            stored_vec_header(s.region(), self.spec_offset()) == self.header_view(),
            self.header_view().size == self.spec_len(),
            self.header_view().capacity == self.spec_capacity(),
            self.header_view().value_len == V::width(),
            self.view(s).len() == self.spec_len(),
            self.spec_len() <= self.spec_capacity(),
    {
    }

    pub closed spec fn spec_capacity(self) -> nat {
        self.header.capacity as nat
    }

    pub closed spec fn spec_offset(self) -> Offset {
        self.offset
    }

    /// Creates an empty vector of the given capacity with its header at
    /// `offset`; the region must have room for the header there.
    pub fn create<S: Storage>(storage: &mut S, offset: Offset, capacity: u32) -> (r: Result<Self, Error>)
        requires
            storage_ok(old(storage)),
            V::width() <= 0xFFFF,
        ensures
            storage_ok(final(storage)),
            final(storage).used() == old(storage).used(),
            final(storage).region().len() == old(storage).region().len(),
            r is Ok <==> offset + VEC_HEADER_LEN <= old(storage).region().len(),
            match r {
                Ok(v) => {
                    &&& v.wf(final(storage))
                    &&& v.view(final(storage)) == Seq::<V>::empty()
                    &&& v.spec_len() == 0
                    &&& v.spec_capacity() == capacity
                    &&& v.spec_offset() == offset
                    &&& VecHeader::decoding(final(storage).region().subrange(offset as int, offset + VEC_HEADER_LEN))
                        == (VecHeader { boom: VEC_MAGIC, reserved: 0, value_len: V::width() as u16, size: 0, capacity })
                },
                Err(e) => e == Error::StorageBounds && final(storage).region() == old(storage).region(),
            },
    {
        let header = VecHeader::new(V::packed_len() as u16, capacity);
        let ghost m0 = storage.region();
        let w = write_record(storage, offset, &header);
        proof {
            VecHeader::lemma_round_trip(header);
            if w is Ok {
                assert(overwrite(m0, offset as int, header.encoding()).subrange(offset as int, offset + VEC_HEADER_LEN) =~= header.encoding());
            }
        }
        match w {
            Ok(()) => {},
            Err(e) => {
                return Err(e);
            },
        }
        let v = StorageVec { offset, header, _phantom: PhantomData };
        assert(v.view(storage) =~= Seq::<V>::empty());
        Ok(v)
    }

    /// Opens the vector whose header is at `offset`.
    ///
    /// Fails with `StorageBounds` when no header fits there, and with
    /// `InvalidOffset` when the header was not made for elements of this
    /// width, or its length exceeds its capacity or the region.
    pub fn lazy_load<S: Storage>(storage: &S, offset: Offset) -> (r: Result<Self, Error>)
        requires
            storage_ok(storage),
            V::width() <= 0xFFFF,
        ensures
            r is Ok <==> offset + VEC_HEADER_LEN <= storage.region().len() && {
                let hd = VecHeader::decoding(storage.region().subrange(offset as int, offset + VEC_HEADER_LEN));
                hd.value_len == V::width() && hd.size <= hd.capacity && slot(offset, hd.size as int, V::width())
                    <= storage.region().len()
            },
            forall|b: Self| #[trigger] b.wf(storage) && b.spec_offset() == offset ==> r is Ok,
            match r {
                Ok(v) => {
                    &&& forall|b: Self| #[trigger] b.wf(storage) && b.spec_offset() == offset ==> b.view(storage) == v.view(storage) && b.spec_len() == v.spec_len()
                    &&& v.wf(storage)
                    &&& v.spec_offset() == offset
                    &&& v.view(storage).len() == v.spec_len()
                    &&& v.header_view() == stored_vec_header(storage.region(), offset)
                    &&& v.spec_len() == stored_vec_header(storage.region(), offset).size
                },
                Err(e) => e == if offset + VEC_HEADER_LEN > storage.region().len() {
                    Error::StorageBounds
                } else {
                    Error::InvalidOffset(offset)
                },
            },
    {
        let header: VecHeader = read_record(storage, offset)?;
        if header.value_len as u32 != V::packed_len() || header.size > header.capacity {
            return Err(Error::InvalidOffset(offset));
        }
        proof {
            lemma_product_fits(header.size as nat, header.value_len as nat);
        }
        let end: u64 = offset as u64 + VEC_HEADER_LEN as u64 + header.size as u64 * header.value_len as u64;
        if end > storage.region_len() as u64 {
            return Err(Error::InvalidOffset(offset));
        }
        Ok(StorageVec { offset, header, _phantom: PhantomData })
    }

    /// Returns the number of elements.
    pub fn len(&self) -> (r: u32)
        ensures
            r == self.spec_len(),
    {
        self.header.size
    }

    /// Returns `true` if the vector holds no element.
    pub fn is_empty(&self) -> (r: bool)
        ensures
            r == (self.spec_len() == 0),
    {
        self.len() == 0
    }

    /// Appends `value` at the back.
    ///
    /// Fails with `OutOfCapacity` when the vector is full, and with
    /// `StorageBounds` when the new slot would reach past the region; either
    /// way nothing is written.
    pub fn push<S: Storage>(&mut self, storage: &mut S, value: V) -> (r: Result<(), Error>)
        requires
            old(self).wf(old(storage)),
        ensures
            final(self).wf(final(storage)),
            final(self).spec_offset() == old(self).spec_offset(),
            final(self).spec_capacity() == old(self).spec_capacity(),
            final(storage).used() == old(storage).used(),
            final(storage).region().len() == old(storage).region().len(),
            old(self).spec_len() >= old(self).spec_capacity() ==> r == Err::<(), Error>(Error::OutOfCapacity),
            old(self).spec_len() < old(self).spec_capacity() ==> (r is Ok <==> slot(old(self).spec_offset(), old(self).spec_len() + 1int, V::width()) <= old(storage).region().len()),
            r is Err ==> final(self).view(final(storage)) == old(self).view(old(storage))
                && final(self).spec_len() == old(self).spec_len()
                && final(storage).region() == old(storage).region(),
            r is Ok ==> final(self).view(final(storage)) == old(self).view(old(storage)).push(value)
                && final(self).spec_len() == old(self).spec_len() + 1,
            final(self).view(final(storage)).len() == final(self).spec_len(),
            stored_vec_header(final(storage).region(), final(self).spec_offset()) == final(self).header_view(),
    {
        if self.header.size >= self.header.capacity {
            return Err(Error::OutOfCapacity);
        }
        let ghost mem = storage.region();
        let ghost w = V::width();
        let ghost old_view = self.view(storage);
        proof {
            lemma_product_fits(self.header.size as nat + 1, self.header.value_len as nat);
        }
        let end: u64 = self.offset as u64 + VEC_HEADER_LEN as u64 + (self.header.size as u64 + 1) * self.header.value_len as u64;
        if end > storage.region_len() as u64 {
            return Err(Error::StorageBounds);
        }
        proof {
            let n = self.header.size as int;
            assert((n + 1) * w == n * w + w) by (nonlinear_arith);
        }
        let at = self.offset + VEC_HEADER_LEN + self.header.size * self.header.value_len as u32;
        self.header.size = self.header.size + 1;
        write_record(storage, self.offset, &self.header)?;
        let ghost m1 = storage.region();
        write_record(storage, at, &value)?;
        let ghost m2 = storage.region();
        proof {
            VecHeader::lemma_round_trip(self.header);
            V::lemma_round_trip(value);
            assert(m1.subrange(self.offset as int, self.offset + VEC_HEADER_LEN) =~= self.header.encoding());
            assert(m2.subrange(self.offset as int, self.offset + VEC_HEADER_LEN) =~= m1.subrange(self.offset as int, self.offset + VEC_HEADER_LEN));
            assert(m2.subrange(at as int, at + w) =~= value.encoding());
            assert forall|i: int| 0 <= i < old_view.len() implies element_at::<V>(m2, self.offset, i) == old_view[i] by {
                lemma_slots_ordered(i, old_view.len() as int, w);
                assert(m2.subrange(slot(self.offset, i, w), slot(self.offset, i, w) + w) =~= mem.subrange(slot(self.offset, i, w), slot(self.offset, i, w) + w));
            }
            assert(self.view(storage) =~= old_view.push(value));
        }
        Ok(())
    }

    /// Returns the element at `index`, or `None` past the end.
    pub fn get<S: Storage>(&self, storage: &S, index: u32) -> (r: Result<Option<V>, Error>)
        requires
            self.wf(storage),
        ensures
            r == Ok::<Option<V>, Error>(if index < self.spec_len() { Some(self.view(storage)[index as int]) } else { None }),
    {
        if index >= self.header.size {
            return Ok(None);
        }
        proof {
            lemma_slots_ordered(index as int, self.header.size as int, V::width());
        }
        let at = self.offset + VEC_HEADER_LEN + index * self.header.value_len as u32;
        let value: V = read_record(storage, at)?;
        Ok(Some(value))
    }
}

} // verus!
