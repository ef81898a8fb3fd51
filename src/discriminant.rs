//! Integer representations of enumerated types: the backing integer types,
//! discriminants tagged with their type, and the decode table of an enum.
use vstd::prelude::*;
use vstd::string::StringExecFns;

use crate::endian::{twos, untwos};
use crate::wire::{
    digits, lemma_digits_len, lemma_digits_of_value, lemma_pow256_16, lemma_value_of_digits,
    pow256, read_uint, value_of, write_uint, ByteOrder,
};

verus! {

/// A fixed-width integer type usable as a field or as an enum's backing type.
#[derive(Clone, Copy, Debug, PartialEq, Eq, Structural)]
pub enum Scalar {
    U8,
    I8,
    U16,
    I16,
    U32,
    I32,
    U64,
    I64,
}

impl Scalar {
    /// The number of bytes of a value.
    pub open spec fn width(self) -> nat {
        match self {
            Scalar::U8 | Scalar::I8 => 1,
            Scalar::U16 | Scalar::I16 => 2,
            Scalar::U32 | Scalar::I32 => 4,
            Scalar::U64 | Scalar::I64 => 8,
        }
    }

    pub open spec fn is_signed(self) -> bool {
        match self {
            Scalar::I8 | Scalar::I16 | Scalar::I32 | Scalar::I64 => true,
            _ => false,
        }
    }

    /// The smallest value of the type.
    pub open spec fn min(self) -> int {
        match self {
            Scalar::I8 => -0x80,
            Scalar::I16 => -0x8000,
            Scalar::I32 => -0x8000_0000,
            Scalar::I64 => -0x8000_0000_0000_0000,
            _ => 0,
        }
    }

    /// The largest value of the type.
    pub open spec fn max(self) -> int {
        match self {
            Scalar::U8 => 0xff,
            Scalar::I8 => 0x7f,
            Scalar::U16 => 0xffff,
            Scalar::I16 => 0x7fff,
            Scalar::U32 => 0xffff_ffff,
            Scalar::I32 => 0x7fff_ffff,
            Scalar::U64 => 0xffff_ffff_ffff_ffff,
            Scalar::I64 => 0x7fff_ffff_ffff_ffff,
        }
    }

    /// `v` is a value of the type.
    pub open spec fn holds(self, v: int) -> bool {
        self.min() <= v <= self.max()
    }

    /// The value of the type whose bit pattern, read as unsigned, is `bits`.
    pub open spec fn from_pattern(self, bits: nat) -> int {
        if self.is_signed() {
            untwos(bits, self.width())
        } else {
            bits as int
        }
    }

    /// The number of bytes of a value.
    pub fn byte_width(&self) -> (r: usize)
        ensures
            r == self.width(),
    {
        match self {
            Scalar::U8 | Scalar::I8 => 1,
            Scalar::U16 | Scalar::I16 => 2,
            Scalar::U32 | Scalar::I32 => 4,
            Scalar::U64 | Scalar::I64 => 8,
        }
    }

    /// Whether `v` is a value of the type.
    pub fn contains(&self, v: i128) -> (r: bool)
        ensures
            r == self.holds(v as int),
    {
        match self {
            Scalar::U8 => 0 <= v && v <= 0xff,
            Scalar::I8 => -0x80 <= v && v <= 0x7f,
            Scalar::U16 => 0 <= v && v <= 0xffff,
            Scalar::I16 => -0x8000 <= v && v <= 0x7fff,
            Scalar::U32 => 0 <= v && v <= 0xffff_ffff,
            Scalar::I32 => -0x8000_0000 <= v && v <= 0x7fff_ffff,
            Scalar::U64 => 0 <= v && v <= 0xffff_ffff_ffff_ffff,
            Scalar::I64 => -0x8000_0000_0000_0000 <= v && v <= 0x7fff_ffff_ffff_ffff,
        }
    }

    /// The bit pattern of `v`, read as unsigned.
    pub fn pattern_of(&self, v: i128) -> (r: u128)
        requires
            self.holds(v as int),
        ensures
            r as nat == twos(v as int, self.width()),
            (r as nat) < pow256(self.width()),
    {
        proof {
            lemma_pow256_16();
        }
        if v >= 0 {
            v as u128
        } else {
            match self {
                Scalar::I8 => (v + 0x100) as u128,
                Scalar::I16 => (v + 0x1_0000) as u128,
                Scalar::I32 => (v + 0x1_0000_0000) as u128,
                _ => (v + 0x1_0000_0000_0000_0000) as u128,
            }
        }
    }

    /// The value whose bit pattern, read as unsigned, is `bits`.
    pub fn value_of_pattern(&self, bits: u128) -> (r: i128)
        requires
            (bits as nat) < pow256(self.width()),
        ensures
            r as int == self.from_pattern(bits as nat),
            self.holds(r as int),
    {
        proof {
            lemma_pow256_16();
        }
        match self {
            Scalar::I8 => if bits < 0x80 { bits as i128 } else { bits as i128 - 0x100 },
            Scalar::I16 => if bits < 0x8000 { bits as i128 } else { bits as i128 - 0x1_0000 },
            Scalar::I32 => if bits < 0x8000_0000 {
                bits as i128
            } else {
                bits as i128 - 0x1_0000_0000
            },
            Scalar::I64 => if bits < 0x8000_0000_0000_0000 {
                bits as i128
            } else {
                bits as i128 - 0x1_0000_0000_0000_0000
            },
            _ => bits as i128,
        }
    }
}

/// A value of the type, stored as its bit pattern, reads back as itself.
pub proof fn lemma_pattern_round_trip(s: Scalar, v: int)
    requires
        s.holds(v),
    ensures
        twos(v, s.width()) < pow256(s.width()),
        s.from_pattern(twos(v, s.width())) == v,
{
    lemma_pow256_16();
}

/// Every pattern that fits is the pattern of the value it reads as.
pub proof fn lemma_pattern_of_value(s: Scalar, bits: nat)
    requires
        bits < pow256(s.width()),
    ensures
        s.holds(s.from_pattern(bits)),
        twos(s.from_pattern(bits), s.width()) == bits,
{
    lemma_pow256_16();
}

/// An enum discriminant, tagged with the integer type it was read as.
#[derive(Clone, Copy, Debug, PartialEq, Eq, Structural)]
pub enum Discriminant {
    U8(u8),
    I8(i8),
    U16(u16),
    I16(i16),
    U32(u32),
    I32(i32),
    U64(u64),
    I64(i64),
}

/// The discriminant `v` tagged with the type `s`.
pub open spec fn tagged(s: Scalar, v: int) -> Discriminant {
    match s {
        Scalar::U8 => Discriminant::U8(v as u8),
        Scalar::I8 => Discriminant::I8(v as i8),
        Scalar::U16 => Discriminant::U16(v as u16),
        Scalar::I16 => Discriminant::I16(v as i16),
        Scalar::U32 => Discriminant::U32(v as u32),
        Scalar::I32 => Discriminant::I32(v as i32),
        Scalar::U64 => Discriminant::U64(v as u64),
        Scalar::I64 => Discriminant::I64(v as i64),
    }
}

impl Discriminant {
    /// The discriminant `v` tagged with the type `s`.
    pub fn new(s: Scalar, v: i128) -> (r: Discriminant)
        requires
            s.holds(v as int),
        ensures
            r == tagged(s, v as int),
    {
        match s {
            Scalar::U8 => Discriminant::U8(v as u8),
            Scalar::I8 => Discriminant::I8(v as i8),
            Scalar::U16 => Discriminant::U16(v as u16),
            Scalar::I16 => Discriminant::I16(v as i16),
            Scalar::U32 => Discriminant::U32(v as u32),
            Scalar::I32 => Discriminant::I32(v as i32),
            Scalar::U64 => Discriminant::U64(v as u64),
            Scalar::I64 => Discriminant::I64(v as i64),
        }
    }
}

impl Discriminant {
    /// The integer value, whatever its type.
    pub open spec fn value(self) -> int {
        match self {
            Discriminant::U8(v) => v as int,
            Discriminant::I8(v) => v as int,
            Discriminant::U16(v) => v as int,
            Discriminant::I16(v) => v as int,
            Discriminant::U32(v) => v as int,
            Discriminant::I32(v) => v as int,
            Discriminant::U64(v) => v as int,
            Discriminant::I64(v) => v as int,
        }
    }

    /// The integer value, whatever its type.
    pub fn get(&self) -> (r: i128)
        ensures
            r as int == self.value(),
    {
        match *self {
            Discriminant::U8(v) => v as i128,
            Discriminant::I8(v) => v as i128,
            Discriminant::U16(v) => v as i128,
            Discriminant::I16(v) => v as i128,
            Discriminant::U32(v) => v as i128,
            Discriminant::I32(v) => v as i128,
            Discriminant::U64(v) => v as i128,
            Discriminant::I64(v) => v as i128,
        }
    }
}

/// The character of a decimal digit.
pub open spec fn digit_char(d: nat) -> char {
    if d == 0 {
        '0'
    } else if d == 1 {
        '1'
    } else if d == 2 {
        '2'
    } else if d == 3 {
        '3'
    } else if d == 4 {
        '4'
    } else if d == 5 {
        '5'
    } else if d == 6 {
        '6'
    } else if d == 7 {
        '7'
    } else if d == 8 {
        '8'
    } else {
        '9'
    }
}

/// The decimal digits of `n`, most significant first, with no leading zero.
pub open spec fn decimal(n: nat) -> Seq<char>
    decreases n,
{
    if n < 10 {
        seq![digit_char(n)]
    } else {
        decimal(n / 10).push(digit_char(n % 10))
    }
}

/// `v` written in decimal, with a leading minus sign when negative.
pub open spec fn signed_decimal(v: int) -> Seq<char> {
    if v < 0 {
        seq!['-'] + decimal((-v) as nat)
    } else {
        decimal(v as nat)
    }
}

fn digit_str(d: u8) -> (r: &'static str)
    requires
        d < 10,
    ensures
        r@ == seq![digit_char(d as nat)],
{
    proof {
        reveal_strlit("0");
        reveal_strlit("1");
        reveal_strlit("2");
        reveal_strlit("3");
        reveal_strlit("4");
        reveal_strlit("5");
        reveal_strlit("6");
        reveal_strlit("7");
        reveal_strlit("8");
        reveal_strlit("9");
    }
    match d {
        0 => "0",
        1 => "1",
        2 => "2",
        3 => "3",
        4 => "4",
        5 => "5",
        6 => "6",
        7 => "7",
        8 => "8",
        _ => "9",
    }
}

fn append_decimal(s: &mut String, n: u128)
    ensures
        final(s)@ == old(s)@ + decimal(n as nat),
    decreases n,
{
    if n >= 10 {
        append_decimal(s, n / 10);
    }
    let ghost before = s@;
    s.append(digit_str((n % 10) as u8));
    proof {
        if n >= 10 {
            assert(s@ =~= old(s)@ + decimal(n as nat));
        } else {
            assert(s@ =~= old(s)@ + decimal(n as nat));
        }
    }
}

/// A byte pattern that is no declared value of the type it was read as.
///
/// It carries the offending discriminant and the name of the target type.
#[derive(Clone, Debug)]
pub struct EnumFromBytesError {
    pub invalid_discriminant: Discriminant,
    pub target_type: String,
}

impl EnumFromBytesError {
    /// A description naming the offending discriminant and the target type:
    /// `Invalid discriminant <value> for type <name>`.
    pub fn message(&self) -> (r: String)
        ensures
            r@ == "Invalid discriminant "@ + signed_decimal(self.invalid_discriminant.value())
                + " for type "@ + self.target_type@,
    {
        let mut s = String::from_str("Invalid discriminant ");
        let v = self.invalid_discriminant.get();
        if v < 0 {
            s.append("-");
            proof {
                reveal_strlit("-");
            }
            append_decimal(&mut s, (-v) as u128);
        } else {
            append_decimal(&mut s, v as u128);
        }
        s.append(" for type ");
        s.append(self.target_type.as_str());
        proof {
            assert(s@ =~= "Invalid discriminant "@ + signed_decimal(self.invalid_discriminant.value())
                + " for type "@ + self.target_type@);
        }
        s
    }
}

/// A schema that cannot be turned into a layout.
#[derive(Clone, Copy, Debug, PartialEq, Eq, Structural)]
pub enum SchemaError {
    /// An attribute keyword outside the vocabulary.
    UnknownAttribute,
    /// An enum declares no variant.
    NoVariants,
    /// The discriminant of the variant at this index does not fit the backing type.
    DiscriminantOutOfRange(usize),
    /// The variant at this index repeats the discriminant of an earlier one.
    DuplicateDiscriminant(usize),
    /// A multi-byte value, at this field index, has no declared byte order.
    MissingByteOrder(usize),
    /// The annotation of the field at this index does not suit its type.
    UnsupportedField(usize),
    /// The field at this index may fail to decode but is not marked `try_transparent`.
    FallibleField(usize),
    /// The layout holds more bytes than the address space.
    TooLarge,
}

/// The first index `i` at which `ds[i]` does not fit `s`, or `ds[i]` repeats an
/// earlier entry; `ds.len()` if there is none.
pub open spec fn first_bad_discriminant(s: Scalar, ds: Seq<i128>) -> int
    decreases ds.len(),
{
    if ds.len() == 0 {
        0
    } else {
        let k = first_bad_discriminant(s, ds.drop_last());
        if k < ds.len() - 1 {
            k
        } else if !s.holds(ds.last() as int) || ds.drop_last().contains(ds.last()) {
            ds.len() - 1
        } else {
            ds.len() as int
        }
    }
}

/// The check made on an enum's declaration, in order: at least one variant, a
/// declared byte order for a multi-byte backing type, and every discriminant a
/// value of the backing type that no earlier variant uses.
pub open spec fn enum_declaration_error(repr: Scalar, order: Option<ByteOrder>, ds: Seq<i128>) -> Option<
    SchemaError,
> {
    let k = first_bad_discriminant(repr, ds);
    if ds.len() == 0 {
        Some(SchemaError::NoVariants)
    } else if repr.width() > 1 && order is None {
        Some(SchemaError::MissingByteOrder(0))
    } else if k < ds.len() {
        if !repr.holds(ds[k] as int) {
            Some(SchemaError::DiscriminantOutOfRange(k as usize))
        } else {
            Some(SchemaError::DuplicateDiscriminant(k as usize))
        }
    } else {
        None
    }
}

proof fn lemma_first_bad(s: Scalar, ds: Seq<i128>)
    ensures
        0 <= first_bad_discriminant(s, ds) <= ds.len(),
        forall|i: int| 0 <= i < first_bad_discriminant(s, ds) ==> s.holds(#[trigger] ds[i] as int),
        forall|i: int, j: int|
            0 <= i < j < first_bad_discriminant(s, ds) ==> ds[i] != ds[j],
        first_bad_discriminant(s, ds) < ds.len() ==> {
            let k = first_bad_discriminant(s, ds);
            !s.holds(ds[k] as int) || ds.subrange(0, k).contains(ds[k])
        },
    decreases ds.len(),
{
    if ds.len() > 0 {
        let p = ds.drop_last();
        lemma_first_bad(s, p);
        let k = first_bad_discriminant(s, p);
        assert forall|i: int| 0 <= i < k implies ds[i] == p[i] by {}
        if k == ds.len() - 1 {
            assert(p =~= ds.subrange(0, k));
            if s.holds(ds.last() as int) && !p.contains(ds.last()) {
                assert forall|i: int, j: int| 0 <= i < j < ds.len() implies ds[i] != ds[j] by {
                    if j == ds.len() - 1 {
                        assert(p[i] == ds[i]);
                    } else {
                        assert(p[i] == ds[i] && p[j] == ds[j]);
                    }
                }
            }
        } else {
            assert(p.subrange(0, k) =~= ds.subrange(0, k));
        }
    }
}

/// The declaration of an enumerated type: its name, backing integer type, byte
/// order, and the discriminant of each variant, variants numbered from zero.
#[derive(Clone, Debug)]
pub struct EnumLayout {
    name: String,
    repr: Scalar,
    order: ByteOrder,
    discriminants: Vec<i128>,
}

impl EnumLayout {
    pub closed spec fn name_view(&self) -> Seq<char> {
        self.name@
    }

    pub closed spec fn repr_spec(&self) -> Scalar {
        self.repr
    }

    pub closed spec fn order_spec(&self) -> ByteOrder {
        self.order
    }

    /// The discriminant of each variant.
    pub closed spec fn table(&self) -> Seq<i128> {
        self.discriminants@
    }

    /// At least one variant; every discriminant a value of the backing type, no
    /// two alike.
    pub open spec fn wf(&self) -> bool {
        &&& self.table().len() > 0
        &&& forall|i: int| 0 <= i < self.table().len() ==> self.repr_spec().holds(#[trigger] self.table()[i] as int)
        &&& forall|i: int, j: int| 0 <= i < j < self.table().len() ==> self.table()[i] != self.table()[j]
    }

    /// The number of bytes of a value.
    pub open spec fn size(&self) -> nat {
        self.repr_spec().width()
    }

    /// The bytes of the variant at `i`: its discriminant in the backing type and order.
    pub open spec fn encoding(&self, i: int) -> Seq<u8> {
        digits(self.order_spec(), twos(self.table()[i] as int, self.size()), self.size())
    }

    /// The discriminant that a byte pattern of the right size reads as.
    pub open spec fn read(&self, s: Seq<u8>) -> int {
        self.repr_spec().from_pattern(value_of(self.order_spec(), s))
    }

    /// The variant whose discriminant `s` reads as, if there is one.
    pub open spec fn lookup(&self, s: Seq<u8>) -> Option<int> {
        if exists|i: int| 0 <= i < self.table().len() && self.table()[i] as int == self.read(s) {
            Some(choose|i: int| 0 <= i < self.table().len() && self.table()[i] as int == self.read(s))
        } else {
            None
        }
    }

    /// Builds the decode table of an enum from its declaration.
    ///
    /// The byte order may be left out only for a one-byte backing type.
    pub fn new(name: String, repr: Scalar, order: Option<ByteOrder>, discriminants: Vec<i128>) -> (r:
        Result<EnumLayout, SchemaError>)
        ensures
            match enum_declaration_error(repr, order, discriminants@) {
                Some(e) => r == Err::<EnumLayout, SchemaError>(e),
                None => r is Ok,
            },
            r matches Ok(l) ==> {
                &&& l.wf()
                &&& l.name_view() == name@
                &&& l.repr_spec() == repr
                &&& l.table() == discriminants@
                &&& (order matches Some(o) ==> l.order_spec() == o)
            },
    {
        proof {
            lemma_first_bad(repr, discriminants@);
        }
        if discriminants.len() == 0 {
            return Err(SchemaError::NoVariants);
        }
        let ord = match order {
            Some(o) => o,
            None => {
                if repr.byte_width() > 1 {
                    return Err(SchemaError::MissingByteOrder(0));
                }
                ByteOrder::Little
            },
        };
        let ghost k = first_bad_discriminant(repr, discriminants@);
        let mut i: usize = 0;
        while i < discriminants.len()
            invariant
                discriminants@.len() > 0,
                !(repr.width() > 1 && order is None),
                i <= discriminants@.len(),
                i <= k,
                k == first_bad_discriminant(repr, discriminants@),
                0 <= k <= discriminants@.len(),
                k < discriminants@.len() ==> (!repr.holds(discriminants@[k] as int)
                    || discriminants@.subrange(0, k).contains(discriminants@[k])),
                forall|a: int| 0 <= a < k ==> repr.holds(#[trigger] discriminants@[a] as int),
                forall|a: int, b: int| 0 <= a < b < k ==> discriminants@[a] != discriminants@[b],
            decreases discriminants@.len() - i,
        {
            let d = discriminants[i];
            if !repr.contains(d) {
                proof {
                    if k > i {
                        assert(repr.holds(discriminants@[i as int] as int));
                    }
                    assert(k == i);
                    assert(enum_declaration_error(repr, order, discriminants@) == Some(
                        SchemaError::DiscriminantOutOfRange(i),
                    ));
                }
                return Err(SchemaError::DiscriminantOutOfRange(i));
            }
            let mut j: usize = 0;
            while j < i
                invariant
                    !(repr.width() > 1 && order is None),
                    j <= i < discriminants@.len(),
                    i <= k,
                    k == first_bad_discriminant(repr, discriminants@),
                    0 <= k <= discriminants@.len(),
                    forall|a: int, b: int| 0 <= a < b < k ==> discriminants@[a] != discriminants@[b],
                    repr.holds(d as int),
                    d == discriminants@[i as int],
                    forall|a: int| 0 <= a < j ==> discriminants@[a] != d,
                decreases i - j,
            {
                if discriminants[j] == d {
                    proof {
                        if k > i {
                            assert(discriminants@[j as int] != discriminants@[i as int]);
                        }
                        assert(discriminants@.subrange(0, i as int)[j as int] == d);
                    }
                    return Err(SchemaError::DuplicateDiscriminant(i));
                }
                j = j + 1;
            }
            proof {
                if k == i {
                    assert(!discriminants@.subrange(0, k).contains(d)) by {
                        if discriminants@.subrange(0, k).contains(d) {
                            let a = choose|a: int|
                                0 <= a < k && discriminants@.subrange(0, k)[a] == d;
                            assert(discriminants@[a] == d);
                        }
                    }
                }
            }
            i = i + 1;
        }
        Ok(EnumLayout { name, repr, order: ord, discriminants })
    }

    /// Whether the declaration is well formed.
    pub fn is_wf(&self) -> (r: bool)
        ensures
            r == self.wf(),
    {
        let n = self.discriminants.len();
        if n == 0 {
            return false;
        }
        let mut i: usize = 0;
        while i < n
            invariant
                n == self.table().len(),
                i <= n,
                forall|a: int| 0 <= a < i ==> self.repr_spec().holds(#[trigger] self.table()[a] as int),
                forall|a: int, b: int| 0 <= a < b < i ==> self.table()[a] != self.table()[b],
            decreases n - i,
        {
            let d = self.discriminants[i];
            if !self.repr.contains(d) {
                return false;
            }
            let mut j: usize = 0;
            while j < i
                invariant
                    n == self.table().len(),
                    j <= i < n,
                    d == self.table()[i as int],
                    forall|a: int| 0 <= a < j ==> self.table()[a] != d,
                decreases i - j,
            {
                if self.discriminants[j] == d {
                    return false;
                }
                j = j + 1;
            }
            i = i + 1;
        }
        true
    }

    /// The number of variants.
    pub fn variant_count(&self) -> (r: usize)
        ensures
            r == self.table().len(),
    {
        self.discriminants.len()
    }

    /// The name of the type.
    pub fn name(&self) -> (r: &String)
        ensures
            r@ == self.name_view(),
    {
        &self.name
    }

    /// The number of bytes of a value.
    pub fn byte_size(&self) -> (r: usize)
        ensures
            r == self.size(),
    {
        self.repr.byte_width()
    }

    /// The discriminant of the variant at `variant`.
    pub fn discriminant(&self, variant: usize) -> (r: Discriminant)
        requires
            self.wf(),
            variant < self.table().len(),
        ensures
            r == tagged(self.repr_spec(), self.table()[variant as int] as int),
    {
        Discriminant::new(self.repr, self.discriminants[variant])
    }

    /// Appends the bytes of the variant at `variant` to `out`.
    pub fn write(&self, variant: usize, out: &mut Vec<u8>)
        requires
            self.wf(),
            variant < self.table().len(),
        ensures
            final(out)@ == old(out)@ + self.encoding(variant as int),
    {
        let bits = self.repr.pattern_of(self.discriminants[variant]);
        write_uint(out, bits, self.repr.byte_width(), self.order);
    }

    /// The bytes of the variant at `variant`.
    pub fn encode(&self, variant: usize) -> (r: Vec<u8>)
        requires
            self.wf(),
            variant < self.table().len(),
        ensures
            r@ == self.encoding(variant as int),
    {
        let mut out: Vec<u8> = Vec::new();
        self.write(variant, &mut out);
        assert(out@ =~= self.encoding(variant as int));
        out
    }

    /// The variant whose bytes stand at `start` in `bytes`, or the error that
    /// carries the discriminant read there and the type's name.
    pub fn read_at(&self, bytes: &[u8], start: usize) -> (r: Result<usize, EnumFromBytesError>)
        requires
            self.wf(),
            start + self.size() <= bytes@.len(),
        ensures
            ({
                let s = bytes@.subrange(start as int, start + self.size());
                match r {
                    Ok(i) => self.lookup(s) == Some(i as int) && i < self.table().len(),
                    Err(e) => self.lookup(s) is None && e.invalid_discriminant == tagged(
                        self.repr_spec(),
                        self.read(s),
                    ) && e.target_type@ == self.name_view(),
                }
            }),
    {
        let w = self.repr.byte_width();
        let bits = read_uint(bytes, start, w, self.order);
        let v = self.repr.value_of_pattern(bits);
        let ghost s = bytes@.subrange(start as int, start + self.size());
        let mut i: usize = 0;
        while i < self.discriminants.len()
            invariant
                self.wf(),
                s == bytes@.subrange(start as int, start + self.size()),
                i <= self.table().len(),
                v as int == self.read(s),
                forall|a: int| 0 <= a < i ==> self.table()[a] != v,
            decreases self.table().len() - i,
        {
            if self.discriminants[i] == v {
                proof {
                    lemma_lookup(*self, s, i as int);
                }
                return Ok(i);
            }
            i = i + 1;
        }
        Err(
            EnumFromBytesError {
                invalid_discriminant: Discriminant::new(self.repr, v),
                target_type: self.name.clone(),
            },
        )
    }

    /// The variant whose bytes are `bytes`, or the error that carries the
    /// discriminant read and the type's name.
    pub fn decode(&self, bytes: &[u8]) -> (r: Result<usize, EnumFromBytesError>)
        requires
            self.wf(),
            bytes@.len() == self.size(),
        ensures
            match r {
                Ok(i) => self.lookup(bytes@) == Some(i as int) && i < self.table().len(),
                Err(e) => self.lookup(bytes@) is None && e.invalid_discriminant == tagged(
                    self.repr_spec(),
                    self.read(bytes@),
                ) && e.target_type@ == self.name_view(),
            },
    {
        assert(bytes@.subrange(0, self.size() as int) =~= bytes@);
        self.read_at(bytes, 0)
    }
}

proof fn lemma_lookup(l: EnumLayout, s: Seq<u8>, i: int)
    requires
        l.wf(),
        0 <= i < l.table().len(),
        l.table()[i] as int == l.read(s),
    ensures
        l.lookup(s) == Some(i),
{
    let c = choose|a: int| 0 <= a < l.table().len() && l.table()[a] as int == l.read(s);
    if c < i {
        assert(l.table()[c] != l.table()[i]);
    } else if i < c {
        assert(l.table()[i] != l.table()[c]);
    }
}

/// Decoding the bytes of a declared variant gives that variant.
pub proof fn lemma_enum_round_trip(l: EnumLayout, i: int)
    requires
        l.wf(),
        0 <= i < l.table().len(),
    ensures
        l.encoding(i).len() == l.size(),
        l.lookup(l.encoding(i)) == Some(i),
{
    let w = l.size();
    let d = l.table()[i] as int;
    lemma_pattern_round_trip(l.repr_spec(), d);
    lemma_value_of_digits(l.order_spec(), twos(d, w), w);
    lemma_digits_len(l.order_spec(), twos(d, w), w);
    lemma_lookup(l, l.encoding(i), i);
}

/// A byte pattern that decodes to a variant is that variant's bytes.
pub proof fn lemma_enum_decoded_bytes(l: EnumLayout, s: Seq<u8>)
    requires
        l.wf(),
        s.len() == l.size(),
        l.lookup(s) is Some,
    ensures
        l.encoding(l.lookup(s)->Some_0) == s,
{
    let w = l.size();
    lemma_digits_of_value(l.order_spec(), s);
    lemma_pattern_of_value(l.repr_spec(), value_of(l.order_spec(), s));
}

} // verus!
