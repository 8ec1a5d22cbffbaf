//! Fixed-width binary encoding of stored values.
//!
//! Multi-byte integers are written most significant byte first (big-endian),
//! so that a region written on one machine reads back the same on another.

use core::cmp::Ordering;
use vstd::prelude::*;

verus! {

/// A type with a fixed encoded width and an exact inverse decoding.
pub trait Codec: Sized {
    /// Number of bytes of the encoding.
    spec fn width() -> nat;

    /// The bytes that encode `self`.
    spec fn encoding(&self) -> Seq<u8>;

    /// The value that the bytes `b` decode to.
    spec fn decoding(b: Seq<u8>) -> Self;

    /// Returns the encoded width in bytes.
    fn packed_len() -> (r: u32)
        requires
            Self::width() <= u32::MAX,
        ensures
            r as nat == Self::width(),
    ;

    /// Writes the encoding of `self` into `bytes`, whose length is the width.
    fn to_bytes(&self, bytes: &mut [u8])
        requires
            old(bytes)@.len() == Self::width(),
        ensures
            final(bytes)@ == self.encoding(),
    ;

    /// Reads a value back from `bytes`, whose length is the width.
    fn from_bytes(bytes: &[u8]) -> (r: Self)
        requires
            bytes@.len() == Self::width(),
        ensures
            r == Self::decoding(bytes@),
    ;

    /// Decoding an encoding gives the value back, and every encoding has
    /// the type's width.
    proof fn lemma_round_trip(v: Self)
        ensures
            v.encoding().len() == Self::width(),
            Self::decoding(v.encoding()) == v,
    ;
}


impl Codec for u8 {
    open spec fn width() -> nat {
        1
    }

    open spec fn encoding(&self) -> Seq<u8> {
        seq![*self]
    }

    open spec fn decoding(b: Seq<u8>) -> u8 {
        b[0]
    }

    fn packed_len() -> (r: u32) {
        1
    }

    fn to_bytes(&self, bytes: &mut [u8]) {
        bytes[0] = *self;
        assert(bytes@ =~= seq![*self]);
    }

    fn from_bytes(bytes: &[u8]) -> (r: u8) {
        bytes[0]
    }

    proof fn lemma_round_trip(v: u8) {
    }
}

impl Codec for i8 {
    open spec fn width() -> nat {
        1
    }

    open spec fn encoding(&self) -> Seq<u8> {
        seq![*self as u8]
    }

    open spec fn decoding(b: Seq<u8>) -> i8 {
        b[0] as i8
    }

    fn packed_len() -> (r: u32) {
        1
    }

    fn to_bytes(&self, bytes: &mut [u8]) {
        bytes[0] = *self as u8;
        assert(bytes@ =~= seq![*self as u8]);
    }

    fn from_bytes(bytes: &[u8]) -> (r: i8) {
        bytes[0] as i8
    }

    proof fn lemma_round_trip(v: i8) {
        assert((v as u8) as i8 == v) by (bit_vector);
    }
}

/// `true` is written as 1 and `false` as 0; any non-zero byte reads as `true`.
impl Codec for bool {
    open spec fn width() -> nat {
        1
    }

    open spec fn encoding(&self) -> Seq<u8> {
        seq![if *self { 1u8 } else { 0u8 }]
    }

    open spec fn decoding(b: Seq<u8>) -> bool {
        b[0] != 0
    }

    fn packed_len() -> (r: u32) {
        1
    }

    fn to_bytes(&self, bytes: &mut [u8]) {
        if *self {
            bytes[0] = 1;
        } else {
            bytes[0] = 0;
        }
        assert(bytes@ =~= self.encoding());
    }

    fn from_bytes(bytes: &[u8]) -> (r: bool) {
        bytes[0] != 0
    }

    proof fn lemma_round_trip(v: bool) {
    }
}

/// `m` with the bytes `d` written from `off` on.
pub open spec fn overwrite(m: Seq<u8>, off: int, d: Seq<u8>) -> Seq<u8> {
    m.take(off) + d + m.skip(off + d.len())
}

/// Writes the encoding of `v` into `bytes` from `at` on, leaving the rest.
pub fn encode_into<T: Codec>(v: &T, bytes: &mut [u8], at: usize)
    requires
        T::width() <= u32::MAX,
        at + T::width() <= old(bytes)@.len(),
    ensures
        final(bytes)@ == overwrite(old(bytes)@, at as int, v.encoding()),
{
    proof {
        T::lemma_round_trip(*v);
    }
    let w = T::packed_len() as usize;
    let mut tmp: Vec<u8> = Vec::new();
    let mut i: usize = 0;
    while i < w
        invariant
            i <= w,
            tmp@.len() == i,
        decreases w - i,
    {
        tmp.push(0u8);
        i = i + 1;
    }
    v.to_bytes(tmp.as_mut_slice());
    let ghost before = bytes@;
    let n = bytes.len();
    let mut j: usize = 0;
    while j < w
        invariant
            j <= w,
            w == T::width(),
            n == before.len(),
            tmp@.len() == w,
            tmp@ == v.encoding(),
            at + w <= before.len(),
            bytes@.len() == before.len(),
            forall|k: int|
                0 <= k < before.len() ==> bytes@[k] == if at <= k < at + j {
                    tmp@[k - at]
                } else {
                    before[k]
                },
        decreases w - j,
    {
        bytes[at + j] = tmp[j];
        j = j + 1;
    }
    assert(bytes@ =~= overwrite(before, at as int, v.encoding()));
}

/// Reads a value of type `T` from `bytes` at `at`.
pub fn decode_from<T: Codec>(bytes: &[u8], at: usize) -> (r: T)
    requires
        T::width() <= u32::MAX,
        at + T::width() <= bytes@.len(),
    ensures
        r == T::decoding(bytes@.subrange(at as int, at + T::width())),
{
    let w = T::packed_len() as usize;
    let n = bytes.len();
    let mut tmp: Vec<u8> = Vec::new();
    let mut i: usize = 0;
    while i < w
        invariant
            i <= w,
            w == T::width(),
            n == bytes@.len(),
            at + w <= bytes@.len(),
            tmp@ == bytes@.subrange(at as int, at + i),
        decreases w - i,
    {
        tmp.push(bytes[at + i]);
        i = i + 1;
        assert(tmp@ =~= bytes@.subrange(at as int, at + i));
    }
    T::from_bytes(tmp.as_slice())
}

pub open spec fn u16_encoding(v: u16) -> Seq<u8> {
    seq![(v >> 8u16) as u8, v as u8]
}

pub open spec fn u16_decoding(b: Seq<u8>) -> u16 {
    ((b[0] as u16) << 8u16) | (b[1] as u16)
}

impl Codec for u16 {
    open spec fn width() -> nat {
        2
    }

    open spec fn encoding(&self) -> Seq<u8> {
        u16_encoding(*self)
    }

    open spec fn decoding(b: Seq<u8>) -> u16 {
        u16_decoding(b)
    }

    fn packed_len() -> (r: u32) {
        2
    }

    fn to_bytes(&self, bytes: &mut [u8]) {
        let v = *self;
        bytes[0] = (v >> 8u16) as u8;
        bytes[1] = v as u8;
        assert(bytes@ =~= u16_encoding(v));
    }

    fn from_bytes(bytes: &[u8]) -> (r: u16) {
        ((bytes[0] as u16) << 8u16) | (bytes[1] as u16)
    }

    proof fn lemma_round_trip(v: u16) {
        let e = u16_encoding(v);
        assert(<u16 as Codec>::width() == 2);
        assert(v.encoding() == e);
        assert(<u16 as Codec>::decoding(e) == u16_decoding(e));
        assert(u16_decoding(e) == ((e[0] as u16) << 8u16) | (e[1] as u16));
        assert(e.len() == 2);
        assert(e[0] == (v >> 8u16) as u8);
        assert(e[1] == v as u8);
        assert(((((v >> 8u16) as u8) as u16) << 8u16) | ((v as u8) as u16) == v) by (bit_vector);
    }
}

pub open spec fn u32_encoding(v: u32) -> Seq<u8> {
    seq![(v >> 24u32) as u8, (v >> 16u32) as u8, (v >> 8u32) as u8, v as u8]
}

pub open spec fn u32_decoding(b: Seq<u8>) -> u32 {
    ((b[0] as u32) << 24u32) | ((b[1] as u32) << 16u32) | ((b[2] as u32) << 8u32) | (b[3] as u32)
}

impl Codec for u32 {
    open spec fn width() -> nat {
        4
    }

    open spec fn encoding(&self) -> Seq<u8> {
        u32_encoding(*self)
    }

    open spec fn decoding(b: Seq<u8>) -> u32 {
        u32_decoding(b)
    }

    fn packed_len() -> (r: u32) {
        4
    }

    fn to_bytes(&self, bytes: &mut [u8]) {
        let v = *self;
        bytes[0] = (v >> 24u32) as u8;
        bytes[1] = (v >> 16u32) as u8;
        bytes[2] = (v >> 8u32) as u8;
        bytes[3] = v as u8;
        assert(bytes@ =~= u32_encoding(v));
    }

    fn from_bytes(bytes: &[u8]) -> (r: u32) {
        ((bytes[0] as u32) << 24u32) | ((bytes[1] as u32) << 16u32) | ((bytes[2] as u32) << 8u32) | (bytes[3] as u32)
    }

    proof fn lemma_round_trip(v: u32) {
        let e = u32_encoding(v);
        assert(<u32 as Codec>::width() == 4);
        assert(v.encoding() == e);
        assert(<u32 as Codec>::decoding(e) == u32_decoding(e));
        assert(u32_decoding(e) == ((e[0] as u32) << 24u32) | ((e[1] as u32) << 16u32) | ((e[2] as u32) << 8u32) | (e[3] as u32));
        assert(e.len() == 4);
        assert(e[0] == (v >> 24u32) as u8);
        assert(e[1] == (v >> 16u32) as u8);
        assert(e[2] == (v >> 8u32) as u8);
        assert(e[3] == v as u8);
        assert(((((v >> 24u32) as u8) as u32) << 24u32) | ((((v >> 16u32) as u8) as u32) << 16u32) | ((((v >> 8u32) as u8) as u32) << 8u32) | ((v as u8) as u32) == v) by (bit_vector);
    }
}

pub open spec fn u64_encoding(v: u64) -> Seq<u8> {
    seq![(v >> 56u64) as u8, (v >> 48u64) as u8, (v >> 40u64) as u8, (v >> 32u64) as u8, (v >> 24u64) as u8, (v >> 16u64) as u8, (v >> 8u64) as u8, v as u8]
}

pub open spec fn u64_decoding(b: Seq<u8>) -> u64 {
    ((b[0] as u64) << 56u64) | ((b[1] as u64) << 48u64) | ((b[2] as u64) << 40u64) | ((b[3] as u64) << 32u64) | ((b[4] as u64) << 24u64) | ((b[5] as u64) << 16u64) | ((b[6] as u64) << 8u64) | (b[7] as u64)
}

impl Codec for u64 {
    open spec fn width() -> nat {
        8
    }

    open spec fn encoding(&self) -> Seq<u8> {
        u64_encoding(*self)
    }

    open spec fn decoding(b: Seq<u8>) -> u64 {
        u64_decoding(b)
    }

    fn packed_len() -> (r: u32) {
        8
    }

    fn to_bytes(&self, bytes: &mut [u8]) {
        let v = *self;
        bytes[0] = (v >> 56u64) as u8;
        bytes[1] = (v >> 48u64) as u8;
        bytes[2] = (v >> 40u64) as u8;
        bytes[3] = (v >> 32u64) as u8;
        bytes[4] = (v >> 24u64) as u8;
        bytes[5] = (v >> 16u64) as u8;
        bytes[6] = (v >> 8u64) as u8;
        bytes[7] = v as u8;
        assert(bytes@ =~= u64_encoding(v));
    }

    fn from_bytes(bytes: &[u8]) -> (r: u64) {
        ((bytes[0] as u64) << 56u64) | ((bytes[1] as u64) << 48u64) | ((bytes[2] as u64) << 40u64) | ((bytes[3] as u64) << 32u64) | ((bytes[4] as u64) << 24u64) | ((bytes[5] as u64) << 16u64) | ((bytes[6] as u64) << 8u64) | (bytes[7] as u64)
    }

    proof fn lemma_round_trip(v: u64) {
        let e = u64_encoding(v);
        assert(<u64 as Codec>::width() == 8);
        assert(v.encoding() == e);
        assert(<u64 as Codec>::decoding(e) == u64_decoding(e));
        assert(u64_decoding(e) == ((e[0] as u64) << 56u64) | ((e[1] as u64) << 48u64) | ((e[2] as u64) << 40u64) | ((e[3] as u64) << 32u64) | ((e[4] as u64) << 24u64) | ((e[5] as u64) << 16u64) | ((e[6] as u64) << 8u64) | (e[7] as u64));
        assert(e.len() == 8);
        assert(e[0] == (v >> 56u64) as u8);
        assert(e[1] == (v >> 48u64) as u8);
        assert(e[2] == (v >> 40u64) as u8);
        assert(e[3] == (v >> 32u64) as u8);
        assert(e[4] == (v >> 24u64) as u8);
        assert(e[5] == (v >> 16u64) as u8);
        assert(e[6] == (v >> 8u64) as u8);
        assert(e[7] == v as u8);
        assert(((((v >> 56u64) as u8) as u64) << 56u64) | ((((v >> 48u64) as u8) as u64) << 48u64) | ((((v >> 40u64) as u8) as u64) << 40u64) | ((((v >> 32u64) as u8) as u64) << 32u64) | ((((v >> 24u64) as u8) as u64) << 24u64) | ((((v >> 16u64) as u8) as u64) << 16u64) | ((((v >> 8u64) as u8) as u64) << 8u64) | ((v as u8) as u64) == v) by (bit_vector);
    }
}

pub open spec fn u128_encoding(v: u128) -> Seq<u8> {
    seq![(v >> 120u128) as u8, (v >> 112u128) as u8, (v >> 104u128) as u8, (v >> 96u128) as u8, (v >> 88u128) as u8, (v >> 80u128) as u8, (v >> 72u128) as u8, (v >> 64u128) as u8, (v >> 56u128) as u8, (v >> 48u128) as u8, (v >> 40u128) as u8, (v >> 32u128) as u8, (v >> 24u128) as u8, (v >> 16u128) as u8, (v >> 8u128) as u8, v as u8]
}

pub open spec fn u128_decoding(b: Seq<u8>) -> u128 {
    ((b[0] as u128) << 120u128) | ((b[1] as u128) << 112u128) | ((b[2] as u128) << 104u128) | ((b[3] as u128) << 96u128) | ((b[4] as u128) << 88u128) | ((b[5] as u128) << 80u128) | ((b[6] as u128) << 72u128) | ((b[7] as u128) << 64u128) | ((b[8] as u128) << 56u128) | ((b[9] as u128) << 48u128) | ((b[10] as u128) << 40u128) | ((b[11] as u128) << 32u128) | ((b[12] as u128) << 24u128) | ((b[13] as u128) << 16u128) | ((b[14] as u128) << 8u128) | (b[15] as u128)
}

impl Codec for u128 {
    open spec fn width() -> nat {
        16
    }

    open spec fn encoding(&self) -> Seq<u8> {
        u128_encoding(*self)
    }

    open spec fn decoding(b: Seq<u8>) -> u128 {
        u128_decoding(b)
    }

    fn packed_len() -> (r: u32) {
        16
    }

    fn to_bytes(&self, bytes: &mut [u8]) {
        let v = *self;
        bytes[0] = (v >> 120u128) as u8;
        bytes[1] = (v >> 112u128) as u8;
        bytes[2] = (v >> 104u128) as u8;
        bytes[3] = (v >> 96u128) as u8;
        bytes[4] = (v >> 88u128) as u8;
        bytes[5] = (v >> 80u128) as u8;
        bytes[6] = (v >> 72u128) as u8;
        bytes[7] = (v >> 64u128) as u8;
        bytes[8] = (v >> 56u128) as u8;
        bytes[9] = (v >> 48u128) as u8;
        bytes[10] = (v >> 40u128) as u8;
        bytes[11] = (v >> 32u128) as u8;
        bytes[12] = (v >> 24u128) as u8;
        bytes[13] = (v >> 16u128) as u8;
        bytes[14] = (v >> 8u128) as u8;
        bytes[15] = v as u8;
        assert(bytes@ =~= u128_encoding(v));
    }

    fn from_bytes(bytes: &[u8]) -> (r: u128) {
        ((bytes[0] as u128) << 120u128) | ((bytes[1] as u128) << 112u128) | ((bytes[2] as u128) << 104u128) | ((bytes[3] as u128) << 96u128) | ((bytes[4] as u128) << 88u128) | ((bytes[5] as u128) << 80u128) | ((bytes[6] as u128) << 72u128) | ((bytes[7] as u128) << 64u128) | ((bytes[8] as u128) << 56u128) | ((bytes[9] as u128) << 48u128) | ((bytes[10] as u128) << 40u128) | ((bytes[11] as u128) << 32u128) | ((bytes[12] as u128) << 24u128) | ((bytes[13] as u128) << 16u128) | ((bytes[14] as u128) << 8u128) | (bytes[15] as u128)
    }

    proof fn lemma_round_trip(v: u128) {
        let e = u128_encoding(v);
        assert(<u128 as Codec>::width() == 16);
        assert(v.encoding() == e);
        assert(<u128 as Codec>::decoding(e) == u128_decoding(e));
        assert(u128_decoding(e) == ((e[0] as u128) << 120u128) | ((e[1] as u128) << 112u128) | ((e[2] as u128) << 104u128) | ((e[3] as u128) << 96u128) | ((e[4] as u128) << 88u128) | ((e[5] as u128) << 80u128) | ((e[6] as u128) << 72u128) | ((e[7] as u128) << 64u128) | ((e[8] as u128) << 56u128) | ((e[9] as u128) << 48u128) | ((e[10] as u128) << 40u128) | ((e[11] as u128) << 32u128) | ((e[12] as u128) << 24u128) | ((e[13] as u128) << 16u128) | ((e[14] as u128) << 8u128) | (e[15] as u128));
        assert(e.len() == 16);
        assert(e[0] == (v >> 120u128) as u8);
        assert(e[1] == (v >> 112u128) as u8);
        assert(e[2] == (v >> 104u128) as u8);
        assert(e[3] == (v >> 96u128) as u8);
        assert(e[4] == (v >> 88u128) as u8);
        assert(e[5] == (v >> 80u128) as u8);
        assert(e[6] == (v >> 72u128) as u8);
        assert(e[7] == (v >> 64u128) as u8);
        assert(e[8] == (v >> 56u128) as u8);
        assert(e[9] == (v >> 48u128) as u8);
        assert(e[10] == (v >> 40u128) as u8);
        assert(e[11] == (v >> 32u128) as u8);
        assert(e[12] == (v >> 24u128) as u8);
        assert(e[13] == (v >> 16u128) as u8);
        assert(e[14] == (v >> 8u128) as u8);
        assert(e[15] == v as u8);
        assert(((((v >> 120u128) as u8) as u128) << 120u128) | ((((v >> 112u128) as u8) as u128) << 112u128) | ((((v >> 104u128) as u8) as u128) << 104u128) | ((((v >> 96u128) as u8) as u128) << 96u128) | ((((v >> 88u128) as u8) as u128) << 88u128) | ((((v >> 80u128) as u8) as u128) << 80u128) | ((((v >> 72u128) as u8) as u128) << 72u128) | ((((v >> 64u128) as u8) as u128) << 64u128) | ((((v >> 56u128) as u8) as u128) << 56u128) | ((((v >> 48u128) as u8) as u128) << 48u128) | ((((v >> 40u128) as u8) as u128) << 40u128) | ((((v >> 32u128) as u8) as u128) << 32u128) | ((((v >> 24u128) as u8) as u128) << 24u128) | ((((v >> 16u128) as u8) as u128) << 16u128) | ((((v >> 8u128) as u8) as u128) << 8u128) | ((v as u8) as u128) == v) by (bit_vector);
    }
}

impl Codec for i16 {
    open spec fn width() -> nat {
        2
    }

    open spec fn encoding(&self) -> Seq<u8> {
        u16_encoding(*self as u16)
    }

    open spec fn decoding(b: Seq<u8>) -> i16 {
        u16_decoding(b) as i16
    }

    fn packed_len() -> (r: u32) {
        2
    }

    fn to_bytes(&self, bytes: &mut [u8]) {
        (*self as u16).to_bytes(bytes);
    }

    fn from_bytes(bytes: &[u8]) -> (r: i16) {
        u16::from_bytes(bytes) as i16
    }

    proof fn lemma_round_trip(v: i16) {
        <u16 as Codec>::lemma_round_trip(v as u16);
        assert((v as u16) as i16 == v) by (bit_vector);
    }
}

impl Codec for i32 {
    open spec fn width() -> nat {
        4
    }

    open spec fn encoding(&self) -> Seq<u8> {
        u32_encoding(*self as u32)
    }

    open spec fn decoding(b: Seq<u8>) -> i32 {
        u32_decoding(b) as i32
    }

    fn packed_len() -> (r: u32) {
        4
    }

    fn to_bytes(&self, bytes: &mut [u8]) {
        (*self as u32).to_bytes(bytes);
    }

    fn from_bytes(bytes: &[u8]) -> (r: i32) {
        u32::from_bytes(bytes) as i32
    }

    proof fn lemma_round_trip(v: i32) {
        <u32 as Codec>::lemma_round_trip(v as u32);
        assert((v as u32) as i32 == v) by (bit_vector);
    }
}

impl Codec for i64 {
    open spec fn width() -> nat {
        8
    }

    open spec fn encoding(&self) -> Seq<u8> {
        u64_encoding(*self as u64)
    }

    open spec fn decoding(b: Seq<u8>) -> i64 {
        u64_decoding(b) as i64
    }

    fn packed_len() -> (r: u32) {
        8
    }

    fn to_bytes(&self, bytes: &mut [u8]) {
        (*self as u64).to_bytes(bytes);
    }

    fn from_bytes(bytes: &[u8]) -> (r: i64) {
        u64::from_bytes(bytes) as i64
    }

    proof fn lemma_round_trip(v: i64) {
        <u64 as Codec>::lemma_round_trip(v as u64);
        assert((v as u64) as i64 == v) by (bit_vector);
    }
}

impl Codec for i128 {
    open spec fn width() -> nat {
        16
    }

    open spec fn encoding(&self) -> Seq<u8> {
        u128_encoding(*self as u128)
    }

    open spec fn decoding(b: Seq<u8>) -> i128 {
        u128_decoding(b) as i128
    }

    fn packed_len() -> (r: u32) {
        16
    }

    fn to_bytes(&self, bytes: &mut [u8]) {
        (*self as u128).to_bytes(bytes);
    }

    fn from_bytes(bytes: &[u8]) -> (r: i128) {
        u128::from_bytes(bytes) as i128
    }

    proof fn lemma_round_trip(v: i128) {
        <u128 as Codec>::lemma_round_trip(v as u128);
        assert((v as u128) as i128 == v) by (bit_vector);
    }
}

/// The bytes of a fixed-size array, copied as they are.
pub open spec fn array_decoding<const N: usize>(b: Seq<u8>) -> [u8; N] {
    choose|a: [u8; N]| a@ == b
}

impl<const N: usize> Codec for [u8; N] {
    open spec fn width() -> nat {
        N as nat
    }

    open spec fn encoding(&self) -> Seq<u8> {
        self@
    }

    open spec fn decoding(b: Seq<u8>) -> [u8; N] {
        array_decoding::<N>(b)
    }

    fn packed_len() -> (r: u32) {
        N as u32
    }

    fn to_bytes(&self, bytes: &mut [u8]) {
        let mut i: usize = 0;
        while i < N
            invariant
                i <= N,
                bytes@.len() == N,
                forall|j: int| 0 <= j < i ==> bytes@[j] == self@[j],
            decreases N - i,
        {
            bytes[i] = self[i];
            i = i + 1;
        }
        assert(bytes@ =~= self@);
    }

    fn from_bytes(bytes: &[u8]) -> (r: [u8; N]) {
        let mut a: [u8; N] = [0u8; N];
        let mut i: usize = 0;
        while i < N
            invariant
                i <= N,
                bytes@.len() == N,
                forall|j: int| 0 <= j < i ==> a@[j] == bytes@[j],
            decreases N - i,
        {
            a[i] = bytes[i];
            i = i + 1;
        }
        assert(a@ =~= bytes@);
        proof {
            let c = array_decoding::<N>(bytes@);
            assert(c@ == bytes@);
            assert(c@ =~= a@);
        }
        a
    }

    proof fn lemma_round_trip(v: [u8; N]) {
        let c = array_decoding::<N>(v@);
        assert(c@ == v@);
        assert(c@ =~= v@);
    }
}

/// A codec type with a total order, usable as the key of a search tree.
///
/// The order is given by an integer rank: `a < b` exactly when
/// `a.rank() < b.rank()`, and values of equal rank are equal.
pub trait Key: Codec {
    spec fn rank(&self) -> int;

    /// Compares two keys by their rank.
    fn compare(&self, other: &Self) -> (r: Ordering)
        ensures
            (r == Ordering::Less) == (self.rank() < other.rank()),
            (r == Ordering::Equal) == (self.rank() == other.rank()),
            (r == Ordering::Greater) == (self.rank() > other.rank()),
    ;

    /// Keys of equal rank are equal.
    proof fn lemma_rank_injective(a: Self, b: Self)
        ensures
            a.rank() == b.rank() ==> a == b,
    ;
}

impl Key for u8 {
    open spec fn rank(&self) -> int {
        *self as int
    }

    fn compare(&self, other: &u8) -> (r: Ordering) {
        if *self < *other {
            Ordering::Less
        } else if *self == *other {
            Ordering::Equal
        } else {
            Ordering::Greater
        }
    }

    proof fn lemma_rank_injective(a: u8, b: u8) {
    }
}

impl Key for u16 {
    open spec fn rank(&self) -> int {
        *self as int
    }

    fn compare(&self, other: &u16) -> (r: Ordering) {
        if *self < *other {
            Ordering::Less
        } else if *self == *other {
            Ordering::Equal
        } else {
            Ordering::Greater
        }
    }

    proof fn lemma_rank_injective(a: u16, b: u16) {
    }
}

impl Key for u32 {
    open spec fn rank(&self) -> int {
        *self as int
    }

    fn compare(&self, other: &u32) -> (r: Ordering) {
        if *self < *other {
            Ordering::Less
        } else if *self == *other {
            Ordering::Equal
        } else {
            Ordering::Greater
        }
    }

    proof fn lemma_rank_injective(a: u32, b: u32) {
    }
}

impl Key for u64 {
    open spec fn rank(&self) -> int {
        *self as int
    }

    fn compare(&self, other: &u64) -> (r: Ordering) {
        if *self < *other {
            Ordering::Less
        } else if *self == *other {
            Ordering::Equal
        } else {
            Ordering::Greater
        }
    }

    proof fn lemma_rank_injective(a: u64, b: u64) {
    }
}

impl Key for u128 {
    open spec fn rank(&self) -> int {
        *self as int
    }

    fn compare(&self, other: &u128) -> (r: Ordering) {
        if *self < *other {
            Ordering::Less
        } else if *self == *other {
            Ordering::Equal
        } else {
            Ordering::Greater
        }
    }

    proof fn lemma_rank_injective(a: u128, b: u128) {
    }
}

impl Key for i8 {
    open spec fn rank(&self) -> int {
        *self as int
    }

    fn compare(&self, other: &i8) -> (r: Ordering) {
        if *self < *other {
            Ordering::Less
        } else if *self == *other {
            Ordering::Equal
        } else {
            Ordering::Greater
        }
    }

    proof fn lemma_rank_injective(a: i8, b: i8) {
    }
}

impl Key for i16 {
    open spec fn rank(&self) -> int {
        *self as int
    }

    fn compare(&self, other: &i16) -> (r: Ordering) {
        if *self < *other {
            Ordering::Less
        } else if *self == *other {
            Ordering::Equal
        } else {
            Ordering::Greater
        }
    }

    proof fn lemma_rank_injective(a: i16, b: i16) {
    }
}

impl Key for i32 {
    open spec fn rank(&self) -> int {
        *self as int
    }

    fn compare(&self, other: &i32) -> (r: Ordering) {
        if *self < *other {
            Ordering::Less
        } else if *self == *other {
            Ordering::Equal
        } else {
            Ordering::Greater
        }
    }

    proof fn lemma_rank_injective(a: i32, b: i32) {
    }
}

impl Key for i64 {
    open spec fn rank(&self) -> int {
        *self as int
    }

    fn compare(&self, other: &i64) -> (r: Ordering) {
        if *self < *other {
            Ordering::Less
        } else if *self == *other {
            Ordering::Equal
        } else {
            Ordering::Greater
        }
    }

    proof fn lemma_rank_injective(a: i64, b: i64) {
    }
}

impl Key for i128 {
    open spec fn rank(&self) -> int {
        *self as int
    }

    fn compare(&self, other: &i128) -> (r: Ordering) {
        if *self < *other {
            Ordering::Less
        } else if *self == *other {
            Ordering::Equal
        } else {
            Ordering::Greater
        }
    }

    proof fn lemma_rank_injective(a: i128, b: i128) {
    }
}

impl Key for bool {
    open spec fn rank(&self) -> int {
        if *self {
            1
        } else {
            0
        }
    }

    fn compare(&self, other: &bool) -> (r: Ordering) {
        if *self == *other {
            Ordering::Equal
        } else if *other {
            Ordering::Less
        } else {
            Ordering::Greater
        }
    }

    proof fn lemma_rank_injective(a: bool, b: bool) {
    }
}

/// The bytes of `s` read as a big-endian unsigned number.
pub open spec fn be_value(s: Seq<u8>) -> int
    decreases s.len(),
{
    if s.len() == 0 {
        0
    } else {
        be_value(s.drop_last()) * 256 + s.last() as int
    }
}

proof fn lemma_be_value_nonneg(s: Seq<u8>)
    ensures
        be_value(s) >= 0,
    decreases s.len(),
{
    if s.len() > 0 {
        lemma_be_value_nonneg(s.drop_last());
    }
}

/// Byte strings of one length with the same value are equal.
proof fn lemma_be_value_injective(a: Seq<u8>, b: Seq<u8>)
    requires
        a.len() == b.len(),
        be_value(a) == be_value(b),
    ensures
        a == b,
    decreases a.len(),
{
    if a.len() > 0 {
        lemma_be_value_nonneg(a.drop_last());
        lemma_be_value_nonneg(b.drop_last());
        let x = be_value(a.drop_last()) - be_value(b.drop_last());
        assert(x * 256 == b.last() as int - a.last() as int);
        assert(x == 0);
        lemma_be_value_injective(a.drop_last(), b.drop_last());
        assert(a =~= a.drop_last().push(a.last()));
        assert(b =~= b.drop_last().push(b.last()));
    } else {
        assert(a =~= b);
    }
}

/// Where two byte strings of one length first differ, the smaller byte
/// belongs to the smaller value.
proof fn lemma_first_difference(a: Seq<u8>, b: Seq<u8>, i: int, k: int)
    requires
        a.len() == b.len(),
        0 <= i < k <= a.len(),
        a.take(i) == b.take(i),
        a[i] < b[i],
    ensures
        be_value(a.take(k)) < be_value(b.take(k)),
    decreases k - i,
{
    if k == i + 1 {
        assert(a.take(k).drop_last() =~= a.take(i));
        assert(b.take(k).drop_last() =~= b.take(i));
    } else {
        lemma_first_difference(a, b, i, k - 1);
        assert(a.take(k).drop_last() =~= a.take(k - 1));
        assert(b.take(k).drop_last() =~= b.take(k - 1));
    }
}

/// Byte arrays are ordered lexicographically, as big-endian numbers.
impl<const N: usize> Key for [u8; N] {
    open spec fn rank(&self) -> int {
        be_value(self@)
    }

    fn compare(&self, other: &[u8; N]) -> (r: Ordering) {
        let mut i: usize = 0;
        while i < N
            invariant
                i <= N,
                self@.len() == N,
                other@.len() == N,
                self@.take(i as int) == other@.take(i as int),
            decreases N - i,
        {
            if self[i] < other[i] {
                proof {
                    lemma_first_difference(self@, other@, i as int, N as int);
                    assert(self@.take(N as int) =~= self@);
                    assert(other@.take(N as int) =~= other@);
                }
                return Ordering::Less;
            }
            if self[i] > other[i] {
                proof {
                    lemma_first_difference(other@, self@, i as int, N as int);
                    assert(self@.take(N as int) =~= self@);
                    assert(other@.take(N as int) =~= other@);
                }
                return Ordering::Greater;
            }
            assert(self@.take(i + 1) =~= self@.take(i as int).push(self@[i as int]));
            assert(other@.take(i + 1) =~= other@.take(i as int).push(other@[i as int]));
            i = i + 1;
        }
        assert(self@ =~= self@.take(N as int));
        assert(other@ =~= other@.take(N as int));
        Ordering::Equal
    }

    proof fn lemma_rank_injective(a: [u8; N], b: [u8; N]) {
        if a.rank() == b.rank() {
            lemma_be_value_injective(a@, b@);
            assert(a@ =~= b@);
        }
    }
}

} // verus!
