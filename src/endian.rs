//! Byte order as a property of a type: numeric types that convert to and from
//! either order, and wrappers that keep a value stored in one fixed order.
use vstd::prelude::*;

use crate::byte_array::ByteArray;
use crate::convert::{FromByteArray, IntoByteArray, ValidBytecastMarker};
use crate::wire::{
    be_digits, be_value, digits, le_digits, le_value, lemma_digits_len, lemma_digits_of_value, lemma_pow256_16, lemma_value_of_digits, pow256,
    read_uint, value_of, write_uint, ByteOrder,
};

verus! {

/// Two's complement: the bit pattern, read as an unsigned number, of `v` in `w` bytes.
pub open spec fn twos(v: int, w: nat) -> nat {
    if v >= 0 {
        v as nat
    } else {
        (v + pow256(w)) as nat
    }
}

/// The value, in `w` bytes of two's complement, whose bit pattern is `v`.
pub open spec fn untwos(v: nat, w: nat) -> int {
    if 2 * v < pow256(w) {
        v as int
    } else {
        v - pow256(w)
    }
}

/// A numeric type whose values convert to and from a fixed number of bytes in
/// either byte order.
///
/// A value is modelled by its bit pattern `bits()`, an unsigned number below
/// `pow256(width())`; every such number is the pattern of exactly one value.
pub trait EndianConvert: Copy + Sized {
    /// The byte array that holds one value.
    type ByteArray: ByteArray;

    /// The number of bytes of one value.
    spec fn width() -> nat;

    /// The bit pattern of the value, read as an unsigned number.
    spec fn bits(self) -> nat;

    /// The value whose bit pattern is `v`.
    spec fn from_bits(v: nat) -> Self;

    /// The model is a bijection between the values and the patterns that fit.
    proof fn lemma_model(x: Self, v: nat)
        ensures
            Self::width() <= 16,
            Self::ByteArray::byte_len() == Self::width(),
            x.bits() < pow256(Self::width()),
            Self::from_bits(x.bits()) == x,
            v < pow256(Self::width()) ==> Self::from_bits(v).bits() == v,
    ;

    /// The value whose little-endian bytes are `b`.
    fn from_le_bytes(b: Self::ByteArray) -> (r: Self)
        ensures
            r == Self::from_bits(le_value(b.bytes())),
    ;

    /// The value whose big-endian bytes are `b`.
    fn from_be_bytes(b: Self::ByteArray) -> (r: Self)
        ensures
            r == Self::from_bits(be_value(b.bytes())),
    ;

    /// The bytes of the value, least significant first.
    fn to_le_bytes(self) -> (r: Self::ByteArray)
        ensures
            r.bytes() == le_digits(self.bits(), Self::width()),
    ;

    /// The bytes of the value, most significant first.
    fn to_be_bytes(self) -> (r: Self::ByteArray)
        ensures
            r.bytes() == be_digits(self.bits(), Self::width()),
    ;
}

/// The `N` low bytes of `v`, in the given order.
fn uint_to_array<const N: usize>(v: u128, order: ByteOrder) -> (r: [u8; N])
    requires
        N <= 16,
    ensures
        r@ == digits(order, v as nat, N as nat),
{
    let mut out: Vec<u8> = Vec::new();
    write_uint(&mut out, v, N, order);
    proof {
        lemma_digits_len(order, v as nat, N as nat);
    }
    <[u8; N]>::from_byte_slice(out.as_slice())
}

/// The value of the bytes of `a`, read in the given order.
fn array_to_uint<const N: usize>(a: &[u8; N], order: ByteOrder) -> (r: u128)
    requires
        N <= 16,
    ensures
        r as nat == value_of(order, a@),
        (r as nat) < pow256(N as nat),
{
    let s = a.as_slice();
    let r = read_uint(s, 0, N, order);
    assert(s@.subrange(0, N as int) =~= a@);
    r
}

/// A value of `T` stored as its big-endian bytes, whatever the byte order of
/// the machine.
///
/// The wrapper owns the bytes only; `get` converts them back to the value.
#[derive(Clone, Copy)]
pub struct BigEndian<T: EndianConvert>(T::ByteArray);

impl<T: EndianConvert> BigEndian<T> {
    /// The stored bytes, most significant first.
    pub closed spec fn stored(self) -> Seq<u8> {
        self.0.bytes()
    }

    /// The value that the stored bytes represent.
    pub open spec fn value(self) -> T {
        T::from_bits(be_value(self.stored()))
    }

    /// Wraps `value`, storing its big-endian bytes.
    pub fn new(value: T) -> (r: Self)
        ensures
            r.stored() == be_digits(value.bits(), T::width()),
            r.value() == value,
    {
        proof {
            lemma_big_round_trip(value);
        }
        BigEndian(value.to_be_bytes())
    }

    /// The value held, converted back from the stored bytes.
    pub fn get(self) -> (r: T)
        ensures
            r == self.value(),
    {
        T::from_be_bytes(self.0)
    }

    /// The stored bytes, unchanged.
    pub fn raw_bytes(self) -> (r: T::ByteArray)
        ensures
            r.bytes() == self.stored(),
    {
        self.0
    }
}

impl<T: EndianConvert> From<T> for BigEndian<T> {
    fn from(value: T) -> (r: Self) {
        let r = BigEndian::new(value);
        proof {
            let b = choose|b: T::ByteArray| b.bytes() == be_digits(value.bits(), T::width());
            T::ByteArray::lemma_bytes_injective(b, r.0);
        }
        r
    }
}

impl<T: EndianConvert> vstd::std_specs::convert::FromSpecImpl<T> for BigEndian<T> {
    open spec fn obeys_from_spec() -> bool {
        true
    }

    closed spec fn from_spec(v: T) -> Self {
        BigEndian(choose|b: T::ByteArray| b.bytes() == be_digits(v.bits(), T::width()))
    }
}

/// Storing a value in big-endian order and reading it back gives the value.
pub proof fn lemma_big_round_trip<T: EndianConvert>(x: T)
    ensures
        T::from_bits(be_value(be_digits(x.bits(), T::width()))) == x,
        be_digits(x.bits(), T::width()).len() == T::width(),
{
    T::lemma_model(x, 0);
    lemma_value_of_digits(ByteOrder::Big, x.bits(), T::width());
    lemma_digits_len(ByteOrder::Big, x.bits(), T::width());
}

/// A value of `T` stored as its little-endian bytes, whatever the byte order of
/// the machine.
///
/// The wrapper owns the bytes only; `get` converts them back to the value.
#[derive(Clone, Copy)]
pub struct LittleEndian<T: EndianConvert>(T::ByteArray);

impl<T: EndianConvert> LittleEndian<T> {
    /// The stored bytes, least significant first.
    pub closed spec fn stored(self) -> Seq<u8> {
        self.0.bytes()
    }

    /// The value that the stored bytes represent.
    pub open spec fn value(self) -> T {
        T::from_bits(le_value(self.stored()))
    }

    /// Wraps `value`, storing its little-endian bytes.
    pub fn new(value: T) -> (r: Self)
        ensures
            r.stored() == le_digits(value.bits(), T::width()),
            r.value() == value,
    {
        proof {
            lemma_little_round_trip(value);
        }
        LittleEndian(value.to_le_bytes())
    }

    /// The value held, converted back from the stored bytes.
    pub fn get(self) -> (r: T)
        ensures
            r == self.value(),
    {
        T::from_le_bytes(self.0)
    }

    /// The stored bytes, unchanged.
    pub fn raw_bytes(self) -> (r: T::ByteArray)
        ensures
            r.bytes() == self.stored(),
    {
        self.0
    }
}

impl<T: EndianConvert> From<T> for LittleEndian<T> {
    fn from(value: T) -> (r: Self) {
        let r = LittleEndian::new(value);
        proof {
            let b = choose|b: T::ByteArray| b.bytes() == le_digits(value.bits(), T::width());
            T::ByteArray::lemma_bytes_injective(b, r.0);
        }
        r
    }
}

impl<T: EndianConvert> vstd::std_specs::convert::FromSpecImpl<T> for LittleEndian<T> {
    open spec fn obeys_from_spec() -> bool {
        true
    }

    closed spec fn from_spec(v: T) -> Self {
        LittleEndian(choose|b: T::ByteArray| b.bytes() == le_digits(v.bits(), T::width()))
    }
}

/// Storing a value in little-endian order and reading it back gives the value.
pub proof fn lemma_little_round_trip<T: EndianConvert>(x: T)
    ensures
        T::from_bits(le_value(le_digits(x.bits(), T::width()))) == x,
        le_digits(x.bits(), T::width()).len() == T::width(),
{
    T::lemma_model(x, 0);
    lemma_value_of_digits(ByteOrder::Little, x.bits(), T::width());
    lemma_digits_len(ByteOrder::Little, x.bits(), T::width());
}

impl<T: EndianConvert> IntoByteArray for BigEndian<T> {
    type ByteArray = T::ByteArray;

    /// The stored bytes.
    open spec fn encoding(self) -> Seq<u8> {
        self.stored()
    }

    proof fn lemma_encoding(a: Self, b: Self) {
        a.0.lemma_len();
        if a.encoding() == b.encoding() {
            T::ByteArray::lemma_bytes_injective(a.0, b.0);
        }
    }

    fn into_byte_array(self) -> (r: T::ByteArray) {
        self.0
    }
}

impl<T: EndianConvert> FromByteArray for BigEndian<T> {
    fn from_byte_array(b: T::ByteArray) -> (r: Self) {
        BigEndian(b)
    }
}

impl<T: EndianConvert> ValidBytecastMarker for BigEndian<T> {
    proof fn lemma_every_pattern_is_a_value(b: T::ByteArray) {
        assert(BigEndian::<T>(b).encoding() == b.bytes());
    }
}

impl<T: EndianConvert> IntoByteArray for LittleEndian<T> {
    type ByteArray = T::ByteArray;

    /// The stored bytes.
    open spec fn encoding(self) -> Seq<u8> {
        self.stored()
    }

    proof fn lemma_encoding(a: Self, b: Self) {
        a.0.lemma_len();
        if a.encoding() == b.encoding() {
            T::ByteArray::lemma_bytes_injective(a.0, b.0);
        }
    }

    fn into_byte_array(self) -> (r: T::ByteArray) {
        self.0
    }
}

impl<T: EndianConvert> FromByteArray for LittleEndian<T> {
    fn from_byte_array(b: T::ByteArray) -> (r: Self) {
        LittleEndian(b)
    }
}

impl<T: EndianConvert> ValidBytecastMarker for LittleEndian<T> {
    proof fn lemma_every_pattern_is_a_value(b: T::ByteArray) {
        assert(LittleEndian::<T>(b).encoding() == b.bytes());
    }
}

impl<T: EndianConvert> PartialEq for BigEndian<T> {
    /// Equal when the values held are equal.
    fn eq(&self, other: &Self) -> (r: bool) {
        proof {
            lemma_same_value_same_bytes::<T>(ByteOrder::Big, self.0, other.0);
        }
        same_bytes(self.0.as_byte_slice(), other.0.as_byte_slice())
    }
}

impl<T: EndianConvert> vstd::std_specs::cmp::PartialEqSpecImpl for BigEndian<T> {
    open spec fn obeys_eq_spec() -> bool {
        true
    }

    open spec fn eq_spec(&self, other: &Self) -> bool {
        self.value() == other.value()
    }
}

impl<T: EndianConvert> Eq for BigEndian<T> {

}

impl<T: EndianConvert> PartialEq for LittleEndian<T> {
    /// Equal when the values held are equal.
    fn eq(&self, other: &Self) -> (r: bool) {
        proof {
            lemma_same_value_same_bytes::<T>(ByteOrder::Little, self.0, other.0);
        }
        same_bytes(self.0.as_byte_slice(), other.0.as_byte_slice())
    }
}

impl<T: EndianConvert> vstd::std_specs::cmp::PartialEqSpecImpl for LittleEndian<T> {
    open spec fn obeys_eq_spec() -> bool {
        true
    }

    open spec fn eq_spec(&self, other: &Self) -> bool {
        self.value() == other.value()
    }
}

impl<T: EndianConvert> Eq for LittleEndian<T> {

}

/// Whether two byte slices hold the same bytes.
fn same_bytes(a: &[u8], b: &[u8]) -> (r: bool)
    ensures
        r == (a@ == b@),
{
    if a.len() != b.len() {
        return false;
    }
    let mut i: usize = 0;
    while i < a.len()
        invariant
            a@.len() == b@.len(),
            i <= a@.len(),
            forall|j: int| 0 <= j < i ==> a@[j] == b@[j],
        decreases a@.len() - i,
    {
        if a[i] != b[i] {
            return false;
        }
        i = i + 1;
    }
    assert(a@ =~= b@);
    true
}

/// Two byte arrays of a numeric type hold the same value, read in one order,
/// exactly when they hold the same bytes.
proof fn lemma_same_value_same_bytes<T: EndianConvert>(order: ByteOrder, a: T::ByteArray, b: T::ByteArray)
    ensures
        (T::from_bits(value_of(order, a.bytes())) == T::from_bits(value_of(order, b.bytes())))
            == (a.bytes() == b.bytes()),
{
    a.lemma_len();
    b.lemma_len();
    T::lemma_model(T::from_bits(value_of(order, a.bytes())), value_of(order, a.bytes()));
    T::lemma_model(T::from_bits(value_of(order, b.bytes())), value_of(order, b.bytes()));
    lemma_digits_of_value(order, a.bytes());
    lemma_digits_of_value(order, b.bytes());
}

/// Executable access to the bit pattern of the built-in integer types.
trait BitPattern: EndianConvert {
    fn bits_exec(self) -> (r: u128)
        ensures
            r as nat == self.bits(),
    ;

    fn from_bits_exec(v: u128) -> (r: Self)
        requires
            (v as nat) < pow256(Self::width()),
        ensures
            r == Self::from_bits(v as nat),
    ;
}

impl EndianConvert for u8 {
    type ByteArray = [u8; 1];

    open spec fn width() -> nat {
        1
    }

    open spec fn bits(self) -> nat {
        self as nat
    }

    open spec fn from_bits(v: nat) -> Self {
        v as u8
    }

    proof fn lemma_model(x: Self, v: nat) {
        lemma_pow256_16();
    }

    fn from_le_bytes(b: [u8; 1]) -> (r: Self) {
        u8::from_bits_exec(array_to_uint(&b, ByteOrder::Little))
    }

    fn from_be_bytes(b: [u8; 1]) -> (r: Self) {
        u8::from_bits_exec(array_to_uint(&b, ByteOrder::Big))
    }

    fn to_le_bytes(self) -> (r: [u8; 1]) {
        uint_to_array(self.bits_exec(), ByteOrder::Little)
    }

    fn to_be_bytes(self) -> (r: [u8; 1]) {
        uint_to_array(self.bits_exec(), ByteOrder::Big)
    }
}

impl BitPattern for u8 {
    fn bits_exec(self) -> (r: u128) {
        proof {
            lemma_pow256_16();
        }
        self as u128
    }

    fn from_bits_exec(v: u128) -> (r: Self) {
        proof {
            lemma_pow256_16();
        }
        v as u8
    }
}

impl EndianConvert for i8 {
    type ByteArray = [u8; 1];

    open spec fn width() -> nat {
        1
    }

    open spec fn bits(self) -> nat {
        twos(self as int, 1)
    }

    open spec fn from_bits(v: nat) -> Self {
        untwos(v, 1) as i8
    }

    proof fn lemma_model(x: Self, v: nat) {
        lemma_pow256_16();
    }

    fn from_le_bytes(b: [u8; 1]) -> (r: Self) {
        i8::from_bits_exec(array_to_uint(&b, ByteOrder::Little))
    }

    fn from_be_bytes(b: [u8; 1]) -> (r: Self) {
        i8::from_bits_exec(array_to_uint(&b, ByteOrder::Big))
    }

    fn to_le_bytes(self) -> (r: [u8; 1]) {
        uint_to_array(self.bits_exec(), ByteOrder::Little)
    }

    fn to_be_bytes(self) -> (r: [u8; 1]) {
        uint_to_array(self.bits_exec(), ByteOrder::Big)
    }
}

impl BitPattern for i8 {
    fn bits_exec(self) -> (r: u128) {
        proof {
            lemma_pow256_16();
        }
        if self >= 0 {
            self as u128
        } else {
            (self as i128 + 0x100) as u128
        }
    }

    fn from_bits_exec(v: u128) -> (r: Self) {
        proof {
            lemma_pow256_16();
        }
        if v < 0x80 {
            v as i8
        } else {
            (v as i128 - 0x100) as i8
        }
    }
}

impl EndianConvert for u16 {
    type ByteArray = [u8; 2];

    open spec fn width() -> nat {
        2
    }

    open spec fn bits(self) -> nat {
        self as nat
    }

    open spec fn from_bits(v: nat) -> Self {
        v as u16
    }

    proof fn lemma_model(x: Self, v: nat) {
        lemma_pow256_16();
    }

    fn from_le_bytes(b: [u8; 2]) -> (r: Self) {
        u16::from_bits_exec(array_to_uint(&b, ByteOrder::Little))
    }

    fn from_be_bytes(b: [u8; 2]) -> (r: Self) {
        u16::from_bits_exec(array_to_uint(&b, ByteOrder::Big))
    }

    fn to_le_bytes(self) -> (r: [u8; 2]) {
        uint_to_array(self.bits_exec(), ByteOrder::Little)
    }

    fn to_be_bytes(self) -> (r: [u8; 2]) {
        uint_to_array(self.bits_exec(), ByteOrder::Big)
    }
}

impl BitPattern for u16 {
    fn bits_exec(self) -> (r: u128) {
        proof {
            lemma_pow256_16();
        }
        self as u128
    }

    fn from_bits_exec(v: u128) -> (r: Self) {
        proof {
            lemma_pow256_16();
        }
        v as u16
    }
}

impl EndianConvert for i16 {
    type ByteArray = [u8; 2];

    open spec fn width() -> nat {
        2
    }

    open spec fn bits(self) -> nat {
        twos(self as int, 2)
    }

    open spec fn from_bits(v: nat) -> Self {
        untwos(v, 2) as i16
    }

    proof fn lemma_model(x: Self, v: nat) {
        lemma_pow256_16();
    }

    fn from_le_bytes(b: [u8; 2]) -> (r: Self) {
        i16::from_bits_exec(array_to_uint(&b, ByteOrder::Little))
    }

    fn from_be_bytes(b: [u8; 2]) -> (r: Self) {
        i16::from_bits_exec(array_to_uint(&b, ByteOrder::Big))
    }

    fn to_le_bytes(self) -> (r: [u8; 2]) {
        uint_to_array(self.bits_exec(), ByteOrder::Little)
    }

    fn to_be_bytes(self) -> (r: [u8; 2]) {
        uint_to_array(self.bits_exec(), ByteOrder::Big)
    }
}

impl BitPattern for i16 {
    fn bits_exec(self) -> (r: u128) {
        proof {
            lemma_pow256_16();
        }
        if self >= 0 {
            self as u128
        } else {
            (self as i128 + 0x1_0000) as u128
        }
    }

    fn from_bits_exec(v: u128) -> (r: Self) {
        proof {
            lemma_pow256_16();
        }
        if v < 0x8000 {
            v as i16
        } else {
            (v as i128 - 0x1_0000) as i16
        }
    }
}

impl EndianConvert for u32 {
    type ByteArray = [u8; 4];

    open spec fn width() -> nat {
        4
    }

    open spec fn bits(self) -> nat {
        self as nat
    }

    open spec fn from_bits(v: nat) -> Self {
        v as u32
    }

    proof fn lemma_model(x: Self, v: nat) {
        lemma_pow256_16();
    }

    fn from_le_bytes(b: [u8; 4]) -> (r: Self) {
        u32::from_bits_exec(array_to_uint(&b, ByteOrder::Little))
    }

    fn from_be_bytes(b: [u8; 4]) -> (r: Self) {
        u32::from_bits_exec(array_to_uint(&b, ByteOrder::Big))
    }

    fn to_le_bytes(self) -> (r: [u8; 4]) {
        uint_to_array(self.bits_exec(), ByteOrder::Little)
    }

    fn to_be_bytes(self) -> (r: [u8; 4]) {
        uint_to_array(self.bits_exec(), ByteOrder::Big)
    }
}

impl BitPattern for u32 {
    fn bits_exec(self) -> (r: u128) {
        proof {
            lemma_pow256_16();
        }
        self as u128
    }

    fn from_bits_exec(v: u128) -> (r: Self) {
        proof {
            lemma_pow256_16();
        }
        v as u32
    }
}

impl EndianConvert for i32 {
    type ByteArray = [u8; 4];

    open spec fn width() -> nat {
        4
    }

    open spec fn bits(self) -> nat {
        twos(self as int, 4)
    }

    open spec fn from_bits(v: nat) -> Self {
        untwos(v, 4) as i32
    }

    proof fn lemma_model(x: Self, v: nat) {
        lemma_pow256_16();
    }

    fn from_le_bytes(b: [u8; 4]) -> (r: Self) {
        i32::from_bits_exec(array_to_uint(&b, ByteOrder::Little))
    }

    fn from_be_bytes(b: [u8; 4]) -> (r: Self) {
        i32::from_bits_exec(array_to_uint(&b, ByteOrder::Big))
    }

    fn to_le_bytes(self) -> (r: [u8; 4]) {
        uint_to_array(self.bits_exec(), ByteOrder::Little)
    }

    fn to_be_bytes(self) -> (r: [u8; 4]) {
        uint_to_array(self.bits_exec(), ByteOrder::Big)
    }
}

impl BitPattern for i32 {
    fn bits_exec(self) -> (r: u128) {
        proof {
            lemma_pow256_16();
        }
        if self >= 0 {
            self as u128
        } else {
            (self as i128 + 0x1_0000_0000) as u128
        }
    }

    fn from_bits_exec(v: u128) -> (r: Self) {
        proof {
            lemma_pow256_16();
        }
        if v < 0x8000_0000 {
            v as i32
        } else {
            (v as i128 - 0x1_0000_0000) as i32
        }
    }
}

impl EndianConvert for u64 {
    type ByteArray = [u8; 8];

    open spec fn width() -> nat {
        8
    }

    open spec fn bits(self) -> nat {
        self as nat
    }

    open spec fn from_bits(v: nat) -> Self {
        v as u64
    }

    proof fn lemma_model(x: Self, v: nat) {
        lemma_pow256_16();
    }

    fn from_le_bytes(b: [u8; 8]) -> (r: Self) {
        u64::from_bits_exec(array_to_uint(&b, ByteOrder::Little))
    }

    fn from_be_bytes(b: [u8; 8]) -> (r: Self) {
        u64::from_bits_exec(array_to_uint(&b, ByteOrder::Big))
    }

    fn to_le_bytes(self) -> (r: [u8; 8]) {
        uint_to_array(self.bits_exec(), ByteOrder::Little)
    }

    fn to_be_bytes(self) -> (r: [u8; 8]) {
        uint_to_array(self.bits_exec(), ByteOrder::Big)
    }
}

impl BitPattern for u64 {
    fn bits_exec(self) -> (r: u128) {
        proof {
            lemma_pow256_16();
        }
        self as u128
    }

    fn from_bits_exec(v: u128) -> (r: Self) {
        proof {
            lemma_pow256_16();
        }
        v as u64
    }
}

impl EndianConvert for i64 {
    type ByteArray = [u8; 8];

    open spec fn width() -> nat {
        8
    }

    open spec fn bits(self) -> nat {
        twos(self as int, 8)
    }

    open spec fn from_bits(v: nat) -> Self {
        untwos(v, 8) as i64
    }

    proof fn lemma_model(x: Self, v: nat) {
        lemma_pow256_16();
    }

    fn from_le_bytes(b: [u8; 8]) -> (r: Self) {
        i64::from_bits_exec(array_to_uint(&b, ByteOrder::Little))
    }

    fn from_be_bytes(b: [u8; 8]) -> (r: Self) {
        i64::from_bits_exec(array_to_uint(&b, ByteOrder::Big))
    }

    fn to_le_bytes(self) -> (r: [u8; 8]) {
        uint_to_array(self.bits_exec(), ByteOrder::Little)
    }

    fn to_be_bytes(self) -> (r: [u8; 8]) {
        uint_to_array(self.bits_exec(), ByteOrder::Big)
    }
}

impl BitPattern for i64 {
    fn bits_exec(self) -> (r: u128) {
        proof {
            lemma_pow256_16();
        }
        if self >= 0 {
            self as u128
        } else {
            (self as i128 + 0x1_0000_0000_0000_0000) as u128
        }
    }

    fn from_bits_exec(v: u128) -> (r: Self) {
        proof {
            lemma_pow256_16();
        }
        if v < 0x8000_0000_0000_0000 {
            v as i64
        } else {
            (v as i128 - 0x1_0000_0000_0000_0000) as i64
        }
    }
}

impl EndianConvert for u128 {
    type ByteArray = [u8; 16];

    open spec fn width() -> nat {
        16
    }

    open spec fn bits(self) -> nat {
        self as nat
    }

    open spec fn from_bits(v: nat) -> Self {
        v as u128
    }

    proof fn lemma_model(x: Self, v: nat) {
        lemma_pow256_16();
    }

    fn from_le_bytes(b: [u8; 16]) -> (r: Self) {
        u128::from_bits_exec(array_to_uint(&b, ByteOrder::Little))
    }

    fn from_be_bytes(b: [u8; 16]) -> (r: Self) {
        u128::from_bits_exec(array_to_uint(&b, ByteOrder::Big))
    }

    fn to_le_bytes(self) -> (r: [u8; 16]) {
        uint_to_array(self.bits_exec(), ByteOrder::Little)
    }

    fn to_be_bytes(self) -> (r: [u8; 16]) {
        uint_to_array(self.bits_exec(), ByteOrder::Big)
    }
}

impl BitPattern for u128 {
    fn bits_exec(self) -> (r: u128) {
        proof {
            lemma_pow256_16();
        }
        self as u128
    }

    fn from_bits_exec(v: u128) -> (r: Self) {
        proof {
            lemma_pow256_16();
        }
        v as u128
    }
}

impl EndianConvert for i128 {
    type ByteArray = [u8; 16];

    open spec fn width() -> nat {
        16
    }

    open spec fn bits(self) -> nat {
        twos(self as int, 16)
    }

    open spec fn from_bits(v: nat) -> Self {
        untwos(v, 16) as i128
    }

    proof fn lemma_model(x: Self, v: nat) {
        lemma_pow256_16();
    }

    fn from_le_bytes(b: [u8; 16]) -> (r: Self) {
        i128::from_bits_exec(array_to_uint(&b, ByteOrder::Little))
    }

    fn from_be_bytes(b: [u8; 16]) -> (r: Self) {
        i128::from_bits_exec(array_to_uint(&b, ByteOrder::Big))
    }

    fn to_le_bytes(self) -> (r: [u8; 16]) {
        uint_to_array(self.bits_exec(), ByteOrder::Little)
    }

    fn to_be_bytes(self) -> (r: [u8; 16]) {
        uint_to_array(self.bits_exec(), ByteOrder::Big)
    }
}

impl BitPattern for i128 {
    fn bits_exec(self) -> (r: u128) {
        proof {
            lemma_pow256_16();
        }
        if self >= 0 {
            self as u128
        } else {
            ((self + i128::MAX + 1) as u128) + 0x8000_0000_0000_0000_0000_0000_0000_0000
        }
    }

    fn from_bits_exec(v: u128) -> (r: Self) {
        proof {
            lemma_pow256_16();
        }
        if v < 0x8000_0000_0000_0000_0000_0000_0000_0000 {
            v as i128
        } else {
            ((v - 0x8000_0000_0000_0000_0000_0000_0000_0000) as i128) - i128::MAX - 1
        }
    }
}
} // verus!
