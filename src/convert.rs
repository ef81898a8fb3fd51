//! Conversion between values and their fixed-size byte arrays: infallible in
//! both directions for types whose every byte pattern is a value, fallible on
//! decoding for types with invalid patterns.
use vstd::prelude::*;

use crate::byte_array::ByteArray;
use crate::discriminant::{Discriminant, EnumFromBytesError};
use crate::endian::{BigEndian, EndianConvert, LittleEndian};
use crate::layout::is_scalar_value;
use crate::wire::{le_digits, le_value, lemma_digits_of_value, lemma_pow256_16, lemma_value_of_digits,
    read_uint, write_uint, ByteOrder, digits};

verus! {

/// A type with a fixed-size byte representation.
pub trait IntoByteArray: Sized {
    /// The byte array that holds one value.
    type ByteArray: ByteArray;

    /// The bytes that represent the value.
    spec fn encoding(self) -> Seq<u8>;

    /// Every representation fills the byte array, and no two values share one.
    proof fn lemma_encoding(a: Self, b: Self)
        ensures
            a.encoding().len() == Self::ByteArray::byte_len(),
            a.encoding() == b.encoding() ==> a == b,
    ;

    /// The number of bytes of the representation.
    fn byte_size() -> (r: usize)
        ensures
            r == Self::ByteArray::byte_len(),
    {
        Self::ByteArray::byte_size()
    }

    /// The byte array that represents the value.
    fn into_byte_array(self) -> (r: Self::ByteArray)
        ensures
            r.bytes() == self.encoding(),
    ;
}

/// A type every byte pattern of whose representation is a value.
pub trait FromByteArray: IntoByteArray {
    /// The value that the byte array represents.
    fn from_byte_array(b: Self::ByteArray) -> (r: Self)
        ensures
            r.encoding() == b.bytes(),
    ;
}

/// A type whose decoding rejects the byte patterns that are no value.
pub trait TryFromByteArray: IntoByteArray {
    /// What a rejected pattern is reported with.
    type Error;

    /// The value that the byte array represents, or the error if it represents none.
    fn try_from_byte_array(b: Self::ByteArray) -> (r: Result<Self, Self::Error>)
        ensures
            r is Ok <==> exists|v: Self| v.encoding() == b.bytes(),
            r matches Ok(v) ==> v.encoding() == b.bytes(),
    ;
}

/// A type that converts to and from its byte array without failure.
pub trait Byteable: FromByteArray {
    /// The byte array that represents the value.
    fn to_byte_array(self) -> (r: Self::ByteArray)
        ensures
            r.bytes() == self.encoding(),
    {
        self.into_byte_array()
    }
}

impl<T: FromByteArray> Byteable for T {
}

/// A type with no invalid byte pattern: every byte array of its size is the
/// representation of a value.
pub trait ValidBytecastMarker: IntoByteArray {
    proof fn lemma_every_pattern_is_a_value(b: Self::ByteArray)
        ensures
            exists|v: Self| v.encoding() == b.bytes(),
    ;
}

/// Decoding the representation of a value gives the value back.
pub proof fn lemma_round_trip<T: IntoByteArray>(v: T, w: T)
    requires
        w.encoding() == v.encoding(),
    ensures
        w == v,
{
    T::lemma_encoding(w, v);
}

impl IntoByteArray for u8 {
    type ByteArray = [u8; 1];

    open spec fn encoding(self) -> Seq<u8> {
        seq![self]
    }

    proof fn lemma_encoding(a: Self, b: Self) {
        if a.encoding() == b.encoding() {
            assert(a.encoding()[0] == b.encoding()[0]);
        }
    }

    fn into_byte_array(self) -> (r: [u8; 1]) {
        let r = [self];
        assert(r@ =~= seq![self]);
        r
    }
}

impl FromByteArray for u8 {
    fn from_byte_array(b: [u8; 1]) -> (r: Self) {
        assert(b@ =~= seq![b[0]]);
        b[0]
    }
}

impl ValidBytecastMarker for u8 {
    proof fn lemma_every_pattern_is_a_value(b: [u8; 1]) {
        assert(b@ =~= b@[0].encoding());
    }
}

impl IntoByteArray for i8 {
    type ByteArray = [u8; 1];

    open spec fn encoding(self) -> Seq<u8> {
        le_digits(crate::endian::twos(self as int, 1), 1)
    }

    proof fn lemma_encoding(a: Self, b: Self) {
        <i8 as EndianConvert>::lemma_model(a, 0);
        <i8 as EndianConvert>::lemma_model(b, 0);
        crate::wire::lemma_le_digits_len(a.bits(), 1);
        if a.encoding() == b.encoding() {
            crate::wire::lemma_digits_injective(ByteOrder::Little, a.bits(), b.bits(), 1);
        }
    }

    fn into_byte_array(self) -> (r: [u8; 1]) {
        <i8 as EndianConvert>::to_le_bytes(self)
    }
}

impl FromByteArray for i8 {
    fn from_byte_array(b: [u8; 1]) -> (r: Self) {
        let r = <i8 as EndianConvert>::from_le_bytes(b);
        proof {
            lemma_digits_of_value(ByteOrder::Little, b@);
            <i8 as EndianConvert>::lemma_model(r, le_value(b@));
        }
        r
    }
}

impl ValidBytecastMarker for i8 {
    proof fn lemma_every_pattern_is_a_value(b: [u8; 1]) {
        lemma_digits_of_value(ByteOrder::Little, b@);
        let v = <i8 as EndianConvert>::from_bits(le_value(b@));
        <i8 as EndianConvert>::lemma_model(v, le_value(b@));
        assert(v.encoding() == b@);
    }
}

impl<const N: usize> IntoByteArray for [u8; N] {
    type ByteArray = [u8; N];

    open spec fn encoding(self) -> Seq<u8> {
        self@
    }

    proof fn lemma_encoding(a: Self, b: Self) {
        if a.encoding() == b.encoding() {
            assert(a =~= b);
        }
    }

    fn into_byte_array(self) -> (r: [u8; N]) {
        self
    }
}

impl<const N: usize> FromByteArray for [u8; N] {
    fn from_byte_array(b: [u8; N]) -> (r: Self) {
        b
    }
}

impl<const N: usize> ValidBytecastMarker for [u8; N] {
    proof fn lemma_every_pattern_is_a_value(b: [u8; N]) {
        assert(b.encoding() == b@);
    }
}

impl<T: FromByteArray> TryFromByteArray for T {
    type Error = core::convert::Infallible;

    fn try_from_byte_array(b: Self::ByteArray) -> (r: Result<Self, Self::Error>) {
        Ok(T::from_byte_array(b))
    }
}

impl IntoByteArray for bool {
    type ByteArray = [u8; 1];

    /// One byte: 1 for true, 0 for false.
    open spec fn encoding(self) -> Seq<u8> {
        seq![if self { 1u8 } else { 0u8 }]
    }

    proof fn lemma_encoding(a: Self, b: Self) {
        if a.encoding() == b.encoding() {
            assert(a.encoding()[0] == b.encoding()[0]);
        }
    }

    fn into_byte_array(self) -> (r: [u8; 1]) {
        let r = [if self { 1u8 } else { 0u8 }];
        assert(r@ =~= self.encoding());
        r
    }
}

impl TryFromByteArray for bool {
    type Error = EnumFromBytesError;

    /// Fails on any byte but 0 and 1, reporting the byte and the type name `bool`.
    fn try_from_byte_array(b: [u8; 1]) -> (r: Result<Self, EnumFromBytesError>)
        ensures
            r matches Err(e) ==> e.invalid_discriminant == Discriminant::U8(b[0]) && e.target_type@
                == "bool"@,
    {
        let x = b[0];
        if x == 0 {
            assert(false.encoding() =~= b@);
            Ok(false)
        } else if x == 1 {
            assert(true.encoding() =~= b@);
            Ok(true)
        } else {
            proof {
                if exists|v: bool| v.encoding() == b@ {
                    let v = choose|v: bool| v.encoding() == b@;
                    assert(v.encoding()[0] == b@[0]);
                }
            }
            Err(
                EnumFromBytesError {
                    invalid_discriminant: Discriminant::U8(x),
                    target_type: "bool".to_owned(),
                },
            )
        }
    }
}

/// The code point of a character is a Unicode scalar value, and characters
/// with equal code points are equal.
proof fn lemma_char_code(c: char, d: char)
    ensures
        is_scalar_value((c as u32) as nat),
        (c as u32) as nat <= 0x10FFFF,
        (c as u32) == (d as u32) ==> c == d,
{
}

impl IntoByteArray for char {
    type ByteArray = [u8; 4];

    /// The code point, in four bytes, least significant first.
    open spec fn encoding(self) -> Seq<u8> {
        le_digits((self as u32) as nat, 4)
    }

    proof fn lemma_encoding(a: Self, b: Self) {
        lemma_pow256_16();
        crate::wire::lemma_le_digits_len((a as u32) as nat, 4);
        lemma_char_code(a, b);
        if a.encoding() == b.encoding() {
            crate::wire::lemma_digits_injective(
                ByteOrder::Little,
                (a as u32) as nat,
                (b as u32) as nat,
                4,
            );
            assert(a as u32 == b as u32);
            lemma_char_code(a, b);
        }
    }

    fn into_byte_array(self) -> (r: [u8; 4]) {
        <u32 as EndianConvert>::to_le_bytes(self as u32)
    }
}

impl TryFromByteArray for char {
    type Error = EnumFromBytesError;

    /// Fails on a code point that is no Unicode scalar value, reporting it and
    /// the type name `char`.
    fn try_from_byte_array(b: [u8; 4]) -> (r: Result<Self, EnumFromBytesError>)
        ensures
            r matches Err(e) ==> e.invalid_discriminant == Discriminant::U32(le_value(b@) as u32)
                && e.target_type@ == "char"@,
    {
        let x = <u32 as EndianConvert>::from_le_bytes(b);
        proof {
            lemma_pow256_16();
            crate::wire::lemma_le_value_bound(b@);
            lemma_digits_of_value(ByteOrder::Little, b@);
        }
        match crate::layout::char_from_code_point(x) {
            Some(c) => {
                assert(x as nat == le_value(b@));
                assert(c.encoding() == b@);
                Ok(c)
            },
            None => {
                proof {
                    if exists|v: char| v.encoding() == b@ {
                        let v = choose|v: char| v.encoding() == b@;
                        lemma_char_code(v, v);
                        lemma_value_of_digits(ByteOrder::Little, (v as u32) as nat, 4);
                        assert(le_value(b@) == (v as u32) as nat);
                        assert(x as nat == le_value(b@));
                    }
                }
                Err(
                    EnumFromBytesError {
                        invalid_discriminant: Discriminant::U32(x),
                        target_type: "char".to_owned(),
                    },
                )
            },
        }
    }
}

} // verus!
