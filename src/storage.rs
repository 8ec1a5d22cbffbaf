//! The byte region that persistent structures live in.

use crate::codec::{overwrite, Codec};
use vstd::prelude::*;

verus! {

/// A byte address into a storage region; 0 stands for "no record".
pub type Offset = u32;

/// Offsets below this one are never handed out, so that no record sits at
/// the null offset.
pub const FIRST_OFFSET: u32 = 4;

/// Why a storage operation failed.
#[derive(Debug, Clone, Copy, PartialEq, Eq, Structural)]
pub enum Error {
    /// An offset and length reach past the end of the region.
    StorageBounds,
    /// The region has no room left for a new record.
    AllocationExhausted,
    /// The record at an offset was made for other key or value widths.
    TypeMismatch,
    /// A fixed-capacity structure is full.
    OutOfCapacity,
    /// The offset holds no structure of the expected shape.
    InvalidOffset(Offset),
}

/// A byte-addressable region with a bump allocator.
///
/// `region` is the whole content; `used` is the allocation mark: every
/// allocation is handed the mark and moves it past the new record.
pub trait Storage: Sized {
    spec fn region(&self) -> Seq<u8>;

    spec fn used(&self) -> nat;

    /// Returns the length of the region.
    fn region_len(&self) -> (r: u32)
        requires
            self.region().len() <= u32::MAX,
        ensures
            r as nat == self.region().len(),
    ;

    /// Reserves `len` bytes and returns their offset.
    fn allocate(&mut self, len: u32) -> (r: Result<Offset, Error>)
        requires
            old(self).region().len() <= u32::MAX,
            FIRST_OFFSET <= old(self).used() <= u32::MAX,
        ensures
            final(self).region().len() <= u32::MAX,
            FIRST_OFFSET <= final(self).used() <= u32::MAX,
            final(self).region() == old(self).region(),
            r is Ok <==> old(self).used() + len <= old(self).region().len(),
            match r {
                Ok(o) => o == old(self).used() && final(self).used() == old(self).used() + len,
                Err(e) => e == Error::AllocationExhausted && final(self).used() == old(self).used(),
            },
    ;

    /// Reads `length` bytes from `offset` on.
    fn sread(&self, offset: Offset, length: u32) -> (r: Result<Vec<u8>, Error>)
        requires
            self.region().len() <= u32::MAX,
            FIRST_OFFSET <= self.used() <= u32::MAX,
        ensures
            r is Ok <==> offset + length <= self.region().len(),
            match r {
                Ok(b) => b@ == self.region().subrange(offset as int, offset + length),
                Err(e) => e == Error::StorageBounds,
            },
    ;

    /// Writes `data` from `offset` on.
    fn swrite(&mut self, offset: Offset, data: &[u8]) -> (r: Result<(), Error>)
        requires
            old(self).region().len() <= u32::MAX,
            FIRST_OFFSET <= old(self).used() <= u32::MAX,
        ensures
            final(self).region().len() <= u32::MAX,
            FIRST_OFFSET <= final(self).used() <= u32::MAX,
            final(self).used() == old(self).used(),
            r is Ok <==> offset + data@.len() <= old(self).region().len(),
            r is Ok ==> final(self).region() == overwrite(old(self).region(), offset as int, data@),
            r is Err ==> final(self).region() == old(self).region() && r == Err::<(), Error>(
                Error::StorageBounds,
            ),
    ;
}

/// The limits that every storage region keeps: offsets and the allocation
/// mark fit in an `Offset`, and the mark never falls below `FIRST_OFFSET`.
pub open spec fn storage_ok<S: Storage>(s: &S) -> bool {
    &&& s.region().len() <= u32::MAX
    &&& FIRST_OFFSET <= s.used() <= u32::MAX
}

/// Storage held in memory, as used by tests and simulations.
pub struct MockStorage {
    bytes: Vec<u8>,
    used: u32,
}

impl MockStorage {
    /// A zero-filled region of `size` bytes with nothing allocated.
    pub fn new(size: usize) -> (r: MockStorage)
        requires
            size <= u32::MAX,
        ensures
            storage_ok(&r),
            r.region() == Seq::new(size as nat, |i: int| 0u8),
            r.used() == FIRST_OFFSET,
    {
        let mut bytes: Vec<u8> = Vec::new();
        let mut i: usize = 0;
        while i < size
            invariant
                i <= size,
                bytes@ == Seq::new(i as nat, |j: int| 0u8),
            decreases size - i,
        {
            bytes.push(0u8);
            i = i + 1;
            assert(bytes@ =~= Seq::new(i as nat, |j: int| 0u8));
        }
        MockStorage { bytes, used: FIRST_OFFSET }
    }
}

impl Storage for MockStorage {
    closed spec fn region(&self) -> Seq<u8> {
        self.bytes@
    }

    closed spec fn used(&self) -> nat {
        self.used as nat
    }

    fn region_len(&self) -> (r: u32) {
        self.bytes.len() as u32
    }

    fn allocate(&mut self, len: u32) -> (r: Result<Offset, Error>) {
        if (self.used as u64) + (len as u64) > (self.bytes.len() as u64) {
            return Err(Error::AllocationExhausted);
        }
        let o = self.used;
        self.used = self.used + len;
        Ok(o)
    }

    fn sread(&self, offset: Offset, length: u32) -> (r: Result<Vec<u8>, Error>) {
        if (offset as u64) + (length as u64) > (self.bytes.len() as u64) {
            return Err(Error::StorageBounds);
        }
        let mut out: Vec<u8> = Vec::new();
        let mut i: u32 = 0;
        while i < length
            invariant
                i <= length,
                offset + length <= self.bytes@.len(),
                self.bytes@.len() <= u32::MAX,
                out@ == self.bytes@.subrange(offset as int, offset + i),
            decreases length - i,
        {
            out.push(self.bytes[(offset + i) as usize]);
            i = i + 1;
            assert(out@ =~= self.bytes@.subrange(offset as int, offset + i));
        }
        Ok(out)
    }

    fn swrite(&mut self, offset: Offset, data: &[u8]) -> (r: Result<(), Error>) {
        if offset as usize > self.bytes.len() || data.len() > self.bytes.len() - offset as usize {
            return Err(Error::StorageBounds);
        }
        let ghost before = self.bytes@;
        let mut i: usize = 0;
        while i < data.len()
            invariant
                i <= data@.len(),
                offset + data@.len() <= before.len(),
                before.len() <= u32::MAX,
                self.bytes@.len() == before.len(),
                self.used == old(self).used,
                forall|j: int|
                    0 <= j < before.len() ==> self.bytes@[j] == if offset <= j < offset + i {
                        data@[j - offset]
                    } else {
                        before[j]
                    },
            decreases data@.len() - i,
        {
            self.bytes.set(offset as usize + i, data[i]);
            i = i + 1;
        }
        assert(self.bytes@ =~= overwrite(before, offset as int, data@));
        Ok(())
    }
}

/// Storage of `storage_size` zero bytes.
pub fn mock_storage(storage_size: usize) -> (r: MockStorage)
    requires
        storage_size <= u32::MAX,
    ensures
        storage_ok(&r),
        r.region() == Seq::new(storage_size as nat, |i: int| 0u8),
        r.used() == FIRST_OFFSET,
{
    MockStorage::new(storage_size)
}

/// A zero-filled buffer of `n` bytes.
fn zeroed(n: u32) -> (r: Vec<u8>)
    ensures
        r@.len() == n,
{
    let mut v: Vec<u8> = Vec::new();
    let mut i: u32 = 0;
    while i < n
        invariant
            i <= n,
            v@.len() == i,
        decreases n - i,
    {
        v.push(0u8);
        i = i + 1;
    }
    v
}

/// Reads the record of type `T` stored at `offset`.
pub fn read_record<S: Storage, T: Codec>(s: &S, offset: Offset) -> (r: Result<T, Error>)
    requires
        storage_ok(s),
        T::width() <= u32::MAX,
    ensures
        r is Ok <==> offset + T::width() <= s.region().len(),
        match r {
            Ok(v) => v == T::decoding(s.region().subrange(offset as int, offset + T::width())),
            Err(e) => e == Error::StorageBounds,
        },
{
    let bytes = s.sread(offset, T::packed_len())?;
    Ok(T::from_bytes(bytes.as_slice()))
}

/// Writes the encoding of `v` at `offset`.
pub fn write_record<S: Storage, T: Codec>(s: &mut S, offset: Offset, v: &T) -> (r: Result<(), Error>)
    requires
        storage_ok(old(s)),
        T::width() <= u32::MAX,
    ensures
        storage_ok(final(s)),
        final(s).used() == old(s).used(),
        r is Ok <==> offset + T::width() <= old(s).region().len(),
        r is Ok ==> final(s).region() == overwrite(old(s).region(), offset as int, v.encoding()),
        r is Err ==> final(s).region() == old(s).region() && r == Err::<(), Error>(
            Error::StorageBounds,
        ),
{
    proof {
        T::lemma_round_trip(*v);
    }
    let mut buf = zeroed(T::packed_len());
    v.to_bytes(buf.as_mut_slice());
    s.swrite(offset, buf.as_slice())
}

} // verus!
