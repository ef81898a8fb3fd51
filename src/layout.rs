//! Layouts: the byte-exact wire form of a record type, built from a schema of
//! annotated fields, with the conversions between field values and bytes.
//!
//! A schema lists the fields of a record in order, each with its declared type
//! and its annotation. Building a layout checks every annotation against its
//! type, once; encoding and decoding then walk the layout. Fields stand next to
//! one another with no padding, so the size of a layout is the sum of the sizes
//! of its fields.
use vstd::prelude::*;

use crate::discriminant::{
    lemma_enum_decoded_bytes, lemma_enum_round_trip, lemma_pattern_of_value,
    lemma_pattern_round_trip, tagged, Discriminant, EnumFromBytesError, EnumLayout, Scalar,
    SchemaError,
};
use crate::endian::twos;
use crate::wire::{
    lemma_pow256_16, digits, le_digits, le_value, lemma_digits_len, lemma_digits_of_value, lemma_value_of_digits,
    read_uint, value_of, write_uint, ByteOrder,
};

verus! {

/// The annotation of a field.
#[derive(Clone, Copy, Debug, PartialEq, Eq, Structural)]
pub enum Tag {
    /// No annotation: the field is stored as it is.
    Plain,
    /// Stored least significant byte first.
    LittleEndian,
    /// Stored most significant byte first.
    BigEndian,
    /// A nested record stored through its own layout; decoding it cannot fail.
    Transparent,
    /// A nested value whose decoding may fail; a failure is passed on unchanged.
    TryTransparent,
}

/// The annotation that an attribute keyword names, or the error for a word
/// outside the vocabulary `little_endian`, `big_endian`, `transparent`,
/// `try_transparent`.
pub open spec fn keyword_tag(word: Seq<char>) -> Result<Tag, SchemaError> {
    if word == "little_endian"@ {
        Ok(Tag::LittleEndian)
    } else if word == "big_endian"@ {
        Ok(Tag::BigEndian)
    } else if word == "transparent"@ {
        Ok(Tag::Transparent)
    } else if word == "try_transparent"@ {
        Ok(Tag::TryTransparent)
    } else {
        Err(SchemaError::UnknownAttribute)
    }
}

impl Tag {
    /// The annotation that an attribute keyword names.
    pub fn from_keyword(word: &str) -> (r: Result<Tag, SchemaError>)
        ensures
            r == keyword_tag(word@),
    {
        let w = word.to_owned();
        if w == "little_endian".to_owned() {
            Ok(Tag::LittleEndian)
        } else if w == "big_endian".to_owned() {
            Ok(Tag::BigEndian)
        } else if w == "transparent".to_owned() {
            Ok(Tag::Transparent)
        } else if w == "try_transparent".to_owned() {
            Ok(Tag::TryTransparent)
        } else {
            Err(SchemaError::UnknownAttribute)
        }
    }
}

/// The declared type of a field.
#[derive(Debug)]
pub enum FieldType {
    /// An integer of the given type.
    Int(Scalar),
    /// An array of this many bytes.
    Bytes(usize),
    /// A boolean, stored as one byte that must be 0 or 1.
    Bool,
    /// A character, stored as its code point in four bytes, least significant first.
    Char,
    /// A record with its own layout.
    Record(Layout),
    /// An enumerated type.
    Enum(EnumLayout),
}

/// One entry of a schema: a field's type and its annotation.
#[derive(Debug)]
pub struct Field {
    pub ty: FieldType,
    pub tag: Tag,
}

/// The checked layout of a record type.
#[derive(Debug)]
pub struct Layout {
    fields: Vec<Field>,
    size: usize,
}

impl Layout {
    /// The fields of the layout, in order.
    pub closed spec fn entries(self) -> Seq<Field> {
        self.fields@
    }

    /// The size the layout records for itself.
    pub closed spec fn recorded_size(self) -> nat {
        self.size as nat
    }

    /// Every field is annotated as its type requires, and the recorded size is
    /// the sum of the field sizes.
    pub open spec fn wf(self) -> bool
        decreases self,
    {
        &&& fields_error(self.entries(), 0) is None
        &&& self.recorded_size() == fields_size(self.entries())
    }
}

/// A value of a field.
#[derive(Debug, PartialEq)]
pub enum Value {
    Int(i128),
    Bytes(Vec<u8>),
    Bool(bool),
    Char(char),
    /// The variant at this index of an enumerated type.
    Variant(usize),
    /// The values of the fields of a nested record, in order.
    Record(Vec<Value>),
}

/// The mathematical model of a field value.
pub enum Val {
    Int(int),
    Bytes(Seq<u8>),
    Bool(bool),
    Char(nat),
    Variant(nat),
    Record(Seq<Val>),
}

impl Value {
    pub open spec fn model(self) -> Val
        decreases self,
    {
        match self {
            Value::Int(x) => Val::Int(x as int),
            Value::Bytes(b) => Val::Bytes(b@),
            Value::Bool(b) => Val::Bool(b),
            Value::Char(c) => Val::Char((c as u32) as nat),
            Value::Variant(i) => Val::Variant(i as nat),
            Value::Record(vs) => Val::Record(models(vs@)),
        }
    }
}

/// The models of a sequence of values.
pub open spec fn models(vs: Seq<Value>) -> Seq<Val>
    decreases vs,
{
    if vs.len() == 0 {
        Seq::empty()
    } else {
        models(vs.subrange(0, vs.len() - 1)).push(vs[vs.len() - 1].model())
    }
}

pub proof fn lemma_models(vs: Seq<Value>)
    ensures
        models(vs).len() == vs.len(),
        forall|i: int| 0 <= i < vs.len() ==> #[trigger] models(vs)[i] == vs[i].model(),
    decreases vs.len(),
{
    if vs.len() > 0 {
        let p = vs.subrange(0, vs.len() - 1);
        lemma_models(p);
        assert forall|i: int| 0 <= i < vs.len() implies #[trigger] models(vs)[i] == vs[i].model() by {
            if i < vs.len() - 1 {
                assert(p[i] == vs[i]);
            }
        }
    }
}

/// A Unicode scalar value: a code point outside the surrogate range.
pub open spec fn is_scalar_value(v: nat) -> bool {
    v <= 0x10FFFF && !(0xD800 <= v <= 0xDFFF)
}

/// The byte order a numeric field is stored in.
pub open spec fn order_of(tag: Tag) -> ByteOrder {
    if tag == Tag::BigEndian {
        ByteOrder::Big
    } else {
        ByteOrder::Little
    }
}

/// The schema error of the field `f` standing at index `i`, if any.
pub open spec fn field_error(f: Field, i: nat) -> Option<SchemaError>
    decreases f,
{
    match f.ty {
        FieldType::Int(s) => match f.tag {
            Tag::Plain => if s.width() == 1 {
                None
            } else {
                Some(SchemaError::MissingByteOrder(i as usize))
            },
            Tag::LittleEndian | Tag::BigEndian => None,
            _ => Some(SchemaError::UnsupportedField(i as usize)),
        },
        FieldType::Bytes(_) => if f.tag == Tag::Plain {
            None
        } else {
            Some(SchemaError::UnsupportedField(i as usize))
        },
        FieldType::Bool | FieldType::Char => match f.tag {
            Tag::TryTransparent => None,
            Tag::Plain | Tag::Transparent => Some(SchemaError::FallibleField(i as usize)),
            _ => Some(SchemaError::UnsupportedField(i as usize)),
        },
        FieldType::Enum(e) => if !e.wf() {
            Some(SchemaError::UnsupportedField(i as usize))
        } else {
            match f.tag {
                Tag::TryTransparent => None,
                Tag::Plain | Tag::Transparent => Some(SchemaError::FallibleField(i as usize)),
                _ => Some(SchemaError::UnsupportedField(i as usize)),
            }
        },
        FieldType::Record(l) => if !l.wf() {
            Some(SchemaError::UnsupportedField(i as usize))
        } else {
            match f.tag {
                Tag::TryTransparent => None,
                Tag::Transparent => if fields_fallible(l.entries()) {
                    Some(SchemaError::FallibleField(i as usize))
                } else {
                    None
                },
                _ => Some(SchemaError::UnsupportedField(i as usize)),
            }
        },
    }
}

/// The first schema error among the fields `fs`, numbered from `base`.
pub open spec fn fields_error(fs: Seq<Field>, base: nat) -> Option<SchemaError>
    decreases fs,
{
    if fs.len() == 0 {
        None
    } else {
        match field_error(fs[0], base) {
            Some(e) => Some(e),
            None => fields_error(fs.subrange(1, fs.len() as int), base + 1),
        }
    }
}

/// Decoding the field `f` may fail.
pub open spec fn field_fallible(f: Field) -> bool
    decreases f,
{
    match f.ty {
        FieldType::Bool | FieldType::Char | FieldType::Enum(_) => true,
        FieldType::Record(l) => fields_fallible(l.entries()),
        _ => false,
    }
}

/// Decoding some field of `fs` may fail.
pub open spec fn fields_fallible(fs: Seq<Field>) -> bool
    decreases fs,
{
    if fs.len() == 0 {
        false
    } else {
        field_fallible(fs[0]) || fields_fallible(fs.subrange(1, fs.len() as int))
    }
}

/// The number of bytes of the field `f`.
pub open spec fn field_size(f: Field) -> nat
    decreases f,
{
    match f.ty {
        FieldType::Int(s) => s.width(),
        FieldType::Bytes(n) => n as nat,
        FieldType::Bool => 1,
        FieldType::Char => 4,
        FieldType::Enum(e) => e.size(),
        FieldType::Record(l) => fields_size(l.entries()),
    }
}

/// The number of bytes of the fields `fs`: the sum of their sizes.
pub open spec fn fields_size(fs: Seq<Field>) -> nat
    decreases fs,
{
    if fs.len() == 0 {
        0
    } else {
        field_size(fs[0]) + fields_size(fs.subrange(1, fs.len() as int))
    }
}

/// `v` is a value of the field `f`.
pub open spec fn conforms(f: Field, v: Val) -> bool
    decreases f,
{
    match (f.ty, v) {
        (FieldType::Int(s), Val::Int(x)) => s.holds(x),
        (FieldType::Bytes(n), Val::Bytes(b)) => b.len() == n,
        (FieldType::Bool, Val::Bool(_)) => true,
        (FieldType::Char, Val::Char(c)) => is_scalar_value(c),
        (FieldType::Enum(e), Val::Variant(k)) => k < e.table().len(),
        (FieldType::Record(l), Val::Record(vs)) => all_conform(l.entries(), vs),
        _ => false,
    }
}

/// `vs` holds one value of each field of `fs`, in order.
pub open spec fn all_conform(fs: Seq<Field>, vs: Seq<Val>) -> bool
    decreases fs,
{
    if fs.len() == 0 {
        vs.len() == 0
    } else {
        vs.len() == fs.len() && conforms(fs[0], vs[0]) && all_conform(
            fs.subrange(1, fs.len() as int),
            vs.subrange(1, vs.len() as int),
        )
    }
}

/// The bytes of the value `v` of the field `f`.
pub open spec fn encoded(f: Field, v: Val) -> Seq<u8>
    decreases f,
{
    match (f.ty, v) {
        (FieldType::Int(s), Val::Int(x)) => digits(order_of(f.tag), twos(x, s.width()), s.width()),
        (FieldType::Bytes(_), Val::Bytes(b)) => b,
        (FieldType::Bool, Val::Bool(b)) => seq![if b { 1u8 } else { 0u8 }],
        (FieldType::Char, Val::Char(c)) => le_digits(c, 4),
        (FieldType::Enum(e), Val::Variant(k)) => e.encoding(k as int),
        (FieldType::Record(l), Val::Record(vs)) => encoded_all(l.entries(), vs),
        _ => Seq::empty(),
    }
}

/// The bytes of the values `vs` of the fields `fs`: their encodings one after
/// the other, in field order.
pub open spec fn encoded_all(fs: Seq<Field>, vs: Seq<Val>) -> Seq<u8>
    decreases fs,
{
    if fs.len() == 0 || vs.len() == 0 {
        Seq::empty()
    } else {
        encoded(fs[0], vs[0]) + encoded_all(
            fs.subrange(1, fs.len() as int),
            vs.subrange(1, vs.len() as int),
        )
    }
}

/// The bytes `s`, of the field's size, are the encoding of some value of `f`.
pub open spec fn valid(f: Field, s: Seq<u8>) -> bool
    decreases f,
{
    match f.ty {
        FieldType::Bool => s[0] <= 1,
        FieldType::Char => is_scalar_value(le_value(s)),
        FieldType::Enum(e) => e.lookup(s) is Some,
        FieldType::Record(l) => valid_all(l.entries(), s),
        _ => true,
    }
}

/// Each field of `fs` finds a valid encoding in its part of `s`.
pub open spec fn valid_all(fs: Seq<Field>, s: Seq<u8>) -> bool
    decreases fs,
{
    if fs.len() == 0 {
        true
    } else {
        let n = field_size(fs[0]);
        valid(fs[0], s.subrange(0, n as int)) && valid_all(
            fs.subrange(1, fs.len() as int),
            s.subrange(n as int, s.len() as int),
        )
    }
}

/// The value of the field `f` that the valid bytes `s` encode.
pub open spec fn decoded(f: Field, s: Seq<u8>) -> Val
    decreases f,
{
    match f.ty {
        FieldType::Int(sc) => Val::Int(sc.from_pattern(value_of(order_of(f.tag), s))),
        FieldType::Bytes(_) => Val::Bytes(s),
        FieldType::Bool => Val::Bool(s[0] == 1),
        FieldType::Char => Val::Char(le_value(s)),
        FieldType::Enum(e) => Val::Variant(e.lookup(s)->Some_0 as nat),
        FieldType::Record(l) => Val::Record(decoded_all(l.entries(), s)),
    }
}

/// The values of the fields `fs` that the valid bytes `s` encode.
pub open spec fn decoded_all(fs: Seq<Field>, s: Seq<u8>) -> Seq<Val>
    decreases fs,
{
    if fs.len() == 0 {
        Seq::empty()
    } else {
        let n = field_size(fs[0]);
        seq![decoded(fs[0], s.subrange(0, n as int))] + decoded_all(
            fs.subrange(1, fs.len() as int),
            s.subrange(n as int, s.len() as int),
        )
    }
}

/// The offending discriminant and type name reported for the invalid bytes `s`
/// of the field `f`: those of the first field, in order, whose bytes are invalid.
pub open spec fn rejection(f: Field, s: Seq<u8>) -> (Discriminant, Seq<char>)
    decreases f,
{
    match f.ty {
        FieldType::Bool => (Discriminant::U8(s[0]), "bool"@),
        FieldType::Char => (Discriminant::U32(le_value(s) as u32), "char"@),
        FieldType::Enum(e) => (tagged(e.repr_spec(), e.read(s)), e.name_view()),
        FieldType::Record(l) => rejection_all(l.entries(), s),
        _ => (Discriminant::U8(0), Seq::empty()),
    }
}

/// The rejection of the first field of `fs` whose part of `s` is invalid.
pub open spec fn rejection_all(fs: Seq<Field>, s: Seq<u8>) -> (Discriminant, Seq<char>)
    decreases fs,
{
    if fs.len() == 0 {
        (Discriminant::U8(0), Seq::empty())
    } else {
        let n = field_size(fs[0]);
        if !valid(fs[0], s.subrange(0, n as int)) {
            rejection(fs[0], s.subrange(0, n as int))
        } else {
            rejection_all(fs.subrange(1, fs.len() as int), s.subrange(n as int, s.len() as int))
        }
    }
}

/// The schema error of a field does not depend on its index, only its report does.
proof fn lemma_field_error_index(f: Field, i: nat, j: nat)
    ensures
        (field_error(f, i) is None) == (field_error(f, j) is None),
{
}

/// The schema error of the field `f` standing at index `i`, if any.
fn check_field(f: &Field, i: usize) -> (r: Option<SchemaError>)
    ensures
        r == field_error(*f, i as nat),
    decreases *f,
{
    match &f.ty {
        FieldType::Int(s) => match f.tag {
            Tag::Plain => if s.byte_width() == 1 {
                None
            } else {
                Some(SchemaError::MissingByteOrder(i))
            },
            Tag::LittleEndian | Tag::BigEndian => None,
            _ => Some(SchemaError::UnsupportedField(i)),
        },
        FieldType::Bytes(_) => match f.tag {
            Tag::Plain => None,
            _ => Some(SchemaError::UnsupportedField(i)),
        },
        FieldType::Bool | FieldType::Char => match f.tag {
            Tag::TryTransparent => None,
            Tag::Plain | Tag::Transparent => Some(SchemaError::FallibleField(i)),
            _ => Some(SchemaError::UnsupportedField(i)),
        },
        FieldType::Enum(e) => if !e.is_wf() {
            Some(SchemaError::UnsupportedField(i))
        } else {
            match f.tag {
                Tag::TryTransparent => None,
                Tag::Plain | Tag::Transparent => Some(SchemaError::FallibleField(i)),
                _ => Some(SchemaError::UnsupportedField(i)),
            }
        },
        FieldType::Record(l) => if !l.is_wf() {
            Some(SchemaError::UnsupportedField(i))
        } else {
            match f.tag {
                Tag::TryTransparent => None,
                Tag::Transparent => if check_fallible(&l.fields) {
                    Some(SchemaError::FallibleField(i))
                } else {
                    None
                },
                _ => Some(SchemaError::UnsupportedField(i)),
            }
        },
    }
}

/// The first schema error among the fields `fs`, numbered from zero.
fn check_fields(fs: &Vec<Field>) -> (r: Option<SchemaError>)
    ensures
        r == fields_error(fs@, 0),
    decreases fs@,
{
    let mut i: usize = 0;
    assert(fs@.subrange(0, fs@.len() as int) =~= fs@);
    while i < fs.len()
        invariant
            i <= fs@.len(),
            fields_error(fs@, 0) == fields_error(fs@.subrange(i as int, fs@.len() as int), i as nat),
        decreases fs@.len() - i,
    {
        let ghost rest = fs@.subrange(i as int, fs@.len() as int);
        assert(rest[0] == fs@[i as int]);
        assert(rest.subrange(1, rest.len() as int) =~= fs@.subrange(i + 1, fs@.len() as int));
        let e = check_field(&fs[i], i);
        if e.is_some() {
            return e;
        }
        i = i + 1;
    }
    None
}

/// Whether decoding some field of `fs` may fail.
fn check_fallible(fs: &Vec<Field>) -> (r: bool)
    ensures
        r == fields_fallible(fs@),
    decreases fs@,
{
    let mut i: usize = 0;
    assert(fs@.subrange(0, fs@.len() as int) =~= fs@);
    while i < fs.len()
        invariant
            i <= fs@.len(),
            fields_fallible(fs@) == fields_fallible(fs@.subrange(i as int, fs@.len() as int)),
        decreases fs@.len() - i,
    {
        let ghost rest = fs@.subrange(i as int, fs@.len() as int);
        assert(rest[0] == fs@[i as int]);
        assert(rest.subrange(1, rest.len() as int) =~= fs@.subrange(i + 1, fs@.len() as int));
        if field_may_fail(&fs[i]) {
            return true;
        }
        i = i + 1;
    }
    false
}

/// Whether decoding the field `f` may fail.
fn field_may_fail(f: &Field) -> (r: bool)
    ensures
        r == field_fallible(*f),
    decreases *f,
{
    match &f.ty {
        FieldType::Bool | FieldType::Char | FieldType::Enum(_) => true,
        FieldType::Record(l) => check_fallible(&l.fields),
        _ => false,
    }
}

/// The number of bytes of the field `f`, if it fits in `usize`.
fn size_of_field(f: &Field) -> (r: Option<usize>)
    ensures
        match r {
            Some(n) => n == field_size(*f),
            None => field_size(*f) > usize::MAX,
        },
    decreases *f,
{
    match &f.ty {
        FieldType::Int(s) => Some(s.byte_width()),
        FieldType::Bytes(n) => Some(*n),
        FieldType::Bool => Some(1),
        FieldType::Char => Some(4),
        FieldType::Enum(e) => Some(e.byte_size()),
        FieldType::Record(l) => size_of_fields(&l.fields),
    }
}

/// The number of bytes of the fields `fs`, if it fits in `usize`.
fn size_of_fields(fs: &Vec<Field>) -> (r: Option<usize>)
    ensures
        match r {
            Some(n) => n == fields_size(fs@),
            None => fields_size(fs@) > usize::MAX,
        },
    decreases fs@,
{
    let mut total: usize = 0;
    let mut i: usize = 0;
    assert(fs@.subrange(0, fs@.len() as int) =~= fs@);
    while i < fs.len()
        invariant
            i <= fs@.len(),
            fields_size(fs@) == total + fields_size(fs@.subrange(i as int, fs@.len() as int)),
        decreases fs@.len() - i,
    {
        let ghost rest = fs@.subrange(i as int, fs@.len() as int);
        assert(rest[0] == fs@[i as int]);
        assert(rest.subrange(1, rest.len() as int) =~= fs@.subrange(i + 1, fs@.len() as int));
        match size_of_field(&fs[i]) {
            Some(n) => {
                if n > usize::MAX - total {
                    return None;
                }
                total = total + n;
            },
            None => {
                return None;
            },
        }
        i = i + 1;
    }
    assert(fs@.subrange(i as int, fs@.len() as int).len() == 0);
    Some(total)
}

impl Layout {
    /// Whether the layout is well formed.
    fn is_wf(&self) -> (r: bool)
        ensures
            r == self.wf(),
        decreases *self,
    {
        if check_fields(&self.fields).is_some() {
            return false;
        }
        match size_of_fields(&self.fields) {
            Some(n) => n == self.size,
            None => false,
        }
    }

    /// Builds the layout of a record from its schema: the fields in declared
    /// order, each with its type and annotation.
    ///
    /// Fails, naming the first offending field, when an annotation does not suit
    /// its type: a multi-byte integer needs a byte order, a record needs
    /// `transparent` (or `try_transparent`, if its decoding may fail), and a
    /// boolean, character or enum needs `try_transparent`.
    pub fn new(fields: Vec<Field>) -> (r: Result<Layout, SchemaError>)
        ensures
            match fields_error(fields@, 0) {
                Some(e) => r == Err::<Layout, SchemaError>(e),
                None => if fields_size(fields@) <= usize::MAX {
                    r matches Ok(l) && l.wf() && l.entries() == fields@
                } else {
                    r == Err::<Layout, SchemaError>(SchemaError::TooLarge)
                },
            },
    {
        match check_fields(&fields) {
            Some(e) => Err(e),
            None => match size_of_fields(&fields) {
                Some(size) => Ok(Layout { fields, size }),
                None => Err(SchemaError::TooLarge),
            },
        }
    }

    /// The number of bytes of a value of the layout: the sum of the sizes of
    /// its fields.
    pub fn byte_size(&self) -> (r: usize)
        requires
            self.wf(),
        ensures
            r == fields_size(self.entries()),
    {
        self.size
    }

    /// The number of fields.
    pub fn field_count(&self) -> (r: usize)
        ensures
            r == self.entries().len(),
    {
        self.fields.len()
    }

    /// Whether `values` holds one value of each field, in order.
    pub fn accepts(&self, values: &Vec<Value>) -> (r: bool)
        requires
            self.wf(),
        ensures
            r == all_conform(self.entries(), models(values@)),
    {
        values_conform(&self.fields, values)
    }

    /// The bytes of a record whose fields hold `values`: the encoding of each
    /// field in declared order, with nothing between them.
    pub fn encode(&self, values: &Vec<Value>) -> (r: Vec<u8>)
        requires
            self.wf(),
            all_conform(self.entries(), models(values@)),
        ensures
            r@ == encoded_all(self.entries(), models(values@)),
            r@.len() == fields_size(self.entries()),
    {
        let mut out: Vec<u8> = Vec::new();
        write_fields(&self.fields, values, &mut out);
        proof {
            lemma_encoded_all_len(self.entries(), models(values@));
        }
        assert(out@ =~= encoded_all(self.entries(), models(values@)));
        out
    }

    /// The field values that `bytes` encode, or the error of the first field,
    /// in declared order, whose bytes are no valid value: a failure of a nested
    /// field is passed on unchanged.
    pub fn decode(&self, bytes: &[u8]) -> (r: Result<Vec<Value>, EnumFromBytesError>)
        requires
            self.wf(),
            bytes@.len() == fields_size(self.entries()),
        ensures
            match r {
                Ok(vs) => valid_all(self.entries(), bytes@) && models(vs@) == decoded_all(
                    self.entries(),
                    bytes@,
                ),
                Err(e) => !valid_all(self.entries(), bytes@) && (
                    e.invalid_discriminant,
                    e.target_type@,
                ) == rejection_all(self.entries(), bytes@),
            },
    {
        assert(bytes@.subrange(0, fields_size(self.entries()) as int) =~= bytes@);
        read_fields(&self.fields, bytes, 0)
    }

    /// Whether decoding may fail: some field, at any depth, is a boolean, a
    /// character or an enum.
    pub fn is_fallible(&self) -> (r: bool)
        ensures
            r == fields_fallible(self.entries()),
    {
        check_fallible(&self.fields)
    }
}

/// Relies on `char::from_u32`: it returns the character with code point `v`
/// exactly when `v` is a Unicode scalar value, and `None` otherwise.
#[verifier::external_body]
pub(crate) fn char_from_code_point(v: u32) -> (r: Option<char>)
    ensures
        r is Some <==> is_scalar_value(v as nat),
        r matches Some(c) ==> c as u32 == v,
{
    char::from_u32(v)
}

/// Whether `v` is a value of the field `f`.
fn value_conforms(f: &Field, v: &Value) -> (r: bool)
    requires
        field_error(*f, 0) is None,
    ensures
        r == conforms(*f, v.model()),
    decreases *f,
{
    match (&f.ty, v) {
        (FieldType::Int(s), Value::Int(x)) => s.contains(*x),
        (FieldType::Bytes(n), Value::Bytes(b)) => b.len() == *n,
        (FieldType::Bool, Value::Bool(_)) => true,
        (FieldType::Char, Value::Char(c)) => {
            let x = *c as u32;
            x <= 0x10FFFF && !(0xD800 <= x && x <= 0xDFFF)
        },
        (FieldType::Enum(e), Value::Variant(k)) => *k < e.variant_count(),
        (FieldType::Record(l), Value::Record(vs)) => values_conform(&l.fields, vs),
        _ => false,
    }
}

/// Whether `vs` holds one value of each field of `fs`, in order.
fn values_conform(fs: &Vec<Field>, vs: &Vec<Value>) -> (r: bool)
    requires
        fields_error(fs@, 0) is None,
    ensures
        r == all_conform(fs@, models(vs@)),
    decreases fs@,
{
    proof {
        lemma_models(vs@);
    }
    let ghost m = models(vs@);
    if fs.len() != vs.len() {
        proof {
            if fs@.len() == 0 {
                assert(m.len() != 0);
            }
        }
        return false;
    }
    let mut i: usize = 0;
    assert(fs@.subrange(0, fs@.len() as int) =~= fs@);
    assert(m.subrange(0, m.len() as int) =~= m);
    while i < fs.len()
        invariant
            i <= fs@.len(),
            fs@.len() == vs@.len(),
            m == models(vs@),
            m.len() == vs@.len(),
            forall|j: int| 0 <= j < vs@.len() ==> #[trigger] m[j] == vs@[j].model(),
            all_conform(fs@, m) == all_conform(
                fs@.subrange(i as int, fs@.len() as int),
                m.subrange(i as int, m.len() as int),
            ),
            fields_error(fs@.subrange(i as int, fs@.len() as int), i as nat) is None,
        decreases fs@.len() - i,
    {
        let ghost rest = fs@.subrange(i as int, fs@.len() as int);
        let ghost mrest = m.subrange(i as int, m.len() as int);
        assert(rest[0] == fs@[i as int]);
        assert(mrest[0] == m[i as int]);
        assert(rest.subrange(1, rest.len() as int) =~= fs@.subrange(i + 1, fs@.len() as int));
        assert(mrest.subrange(1, mrest.len() as int) =~= m.subrange(i + 1, m.len() as int));
        proof {
            lemma_field_error_index(fs@[i as int], i as nat, 0);
        }
        if !value_conforms(&fs[i], &vs[i]) {
            return false;
        }
        i = i + 1;
    }
    true
}

/// Appends the bytes of `b` to `out`.
fn append_bytes(out: &mut Vec<u8>, b: &[u8])
    ensures
        final(out)@ == old(out)@ + b@,
{
    let ghost start = out@;
    let mut i: usize = 0;
    while i < b.len()
        invariant
            i <= b@.len(),
            out@ == start + b@.subrange(0, i as int),
        decreases b@.len() - i,
    {
        out.push(b[i]);
        assert(b@.subrange(0, i as int).push(b@[i as int]) =~= b@.subrange(0, i + 1));
        i = i + 1;
    }
    assert(b@.subrange(0, b@.len() as int) =~= b@);
}

/// Appends the bytes of the value `v` of the field `f` to `out`.
fn write_field(f: &Field, v: &Value, out: &mut Vec<u8>)
    requires
        field_error(*f, 0) is None,
        conforms(*f, v.model()),
    ensures
        final(out)@ == old(out)@ + encoded(*f, v.model()),
    decreases *f,
{
    match (&f.ty, v) {
        (FieldType::Int(s), Value::Int(x)) => {
            let bits = s.pattern_of(*x);
            let order = if f.tag == Tag::BigEndian {
                ByteOrder::Big
            } else {
                ByteOrder::Little
            };
            write_uint(out, bits, s.byte_width(), order);
        },
        (FieldType::Bytes(_), Value::Bytes(b)) => {
            append_bytes(out, b.as_slice());
        },
        (FieldType::Bool, Value::Bool(b)) => {
            out.push(if *b { 1u8 } else { 0u8 });
            assert(out@ =~= old(out)@ + encoded(*f, v.model()));
        },
        (FieldType::Char, Value::Char(c)) => {
            write_uint(out, (*c as u32) as u128, 4, ByteOrder::Little);
        },
        (FieldType::Enum(e), Value::Variant(k)) => {
            e.write(*k, out);
        },
        (FieldType::Record(l), Value::Record(vs)) => {
            write_fields(&l.fields, vs, out);
        },
        _ => {},
    }
}

/// Appends the bytes of the values `vs` of the fields `fs` to `out`.
fn write_fields(fs: &Vec<Field>, vs: &Vec<Value>, out: &mut Vec<u8>)
    requires
        fields_error(fs@, 0) is None,
        all_conform(fs@, models(vs@)),
    ensures
        final(out)@ == old(out)@ + encoded_all(fs@, models(vs@)),
    decreases fs@,
{
    proof {
        lemma_models(vs@);
    }
    let ghost m = models(vs@);
    let ghost start = out@;
    let mut i: usize = 0;
    assert(fs@.subrange(0, fs@.len() as int) =~= fs@);
    assert(m.subrange(0, m.len() as int) =~= m);
    assert(start + encoded_all(fs@, m) =~= out@ + encoded_all(fs@, m));
    while i < fs.len()
        invariant
            i <= fs@.len(),
            fs@.len() == vs@.len(),
            m == models(vs@),
            m.len() == vs@.len(),
            forall|j: int| 0 <= j < vs@.len() ==> #[trigger] m[j] == vs@[j].model(),
            all_conform(
                fs@.subrange(i as int, fs@.len() as int),
                m.subrange(i as int, m.len() as int),
            ),
            fields_error(fs@.subrange(i as int, fs@.len() as int), i as nat) is None,
            start + encoded_all(fs@, m) == out@ + encoded_all(
                fs@.subrange(i as int, fs@.len() as int),
                m.subrange(i as int, m.len() as int),
            ),
        decreases fs@.len() - i,
    {
        let ghost rest = fs@.subrange(i as int, fs@.len() as int);
        let ghost mrest = m.subrange(i as int, m.len() as int);
        assert(rest[0] == fs@[i as int]);
        assert(mrest[0] == m[i as int]);
        assert(rest.subrange(1, rest.len() as int) =~= fs@.subrange(i + 1, fs@.len() as int));
        assert(mrest.subrange(1, mrest.len() as int) =~= m.subrange(i + 1, m.len() as int));
        proof {
            lemma_field_error_index(fs@[i as int], i as nat, 0);
        }
        let ghost before = out@;
        write_field(&fs[i], &vs[i], out);
        assert(before + encoded_all(rest, mrest) =~= out@ + encoded_all(
            fs@.subrange(i + 1, fs@.len() as int),
            m.subrange(i + 1, m.len() as int),
        ));
        i = i + 1;
    }
    assert(out@ + encoded_all(
        fs@.subrange(i as int, fs@.len() as int),
        m.subrange(i as int, m.len() as int),
    ) =~= out@);
}

/// The number of bytes of the field `f`.
fn field_len(f: &Field) -> (r: usize)
    requires
        field_error(*f, 0) is None,
        field_size(*f) <= usize::MAX,
    ensures
        r == field_size(*f),
{
    match &f.ty {
        FieldType::Int(s) => s.byte_width(),
        FieldType::Bytes(n) => *n,
        FieldType::Bool => 1,
        FieldType::Char => 4,
        FieldType::Enum(e) => e.byte_size(),
        FieldType::Record(l) => l.size,
    }
}

/// The bytes of `b` from `start` on, `n` of them.
fn copy_bytes(b: &[u8], start: usize, n: usize) -> (r: Vec<u8>)
    requires
        start + n <= b@.len(),
    ensures
        r@ == b@.subrange(start as int, start + n),
{
    let mut out: Vec<u8> = Vec::new();
    let mut i: usize = 0;
    let blen = b.len();
    while i < n
        invariant
            i <= n,
            start + n <= b@.len(),
            b@.len() == blen,
            out@ == b@.subrange(start as int, start + i),
        decreases n - i,
    {
        out.push(b[start + i]);
        assert(b@.subrange(start as int, start + i).push(b@[start + i]) =~= b@.subrange(
            start as int,
            start + i + 1,
        ));
        i = i + 1;
    }
    out
}

/// The value holding the character `c`.
fn char_value(c: char) -> (r: Value)
    ensures
        r.model() == Val::Char((c as u32) as nat),
{
    Value::Char(c)
}

/// The character whose code point stands in the four bytes at `start`, least
/// significant byte first.
fn read_char(bytes: &[u8], start: usize) -> (r: Result<Value, EnumFromBytesError>)
    requires
        start + 4 <= bytes@.len(),
    ensures
        ({
            let s = bytes@.subrange(start as int, start + 4);
            match r {
                Ok(v) => is_scalar_value(le_value(s)) && v.model() == Val::Char(le_value(s)),
                Err(e) => !is_scalar_value(le_value(s)) && e.invalid_discriminant
                    == Discriminant::U32(le_value(s) as u32) && e.target_type@ == "char"@,
            }
        }),
{
    let x = read_uint(bytes, start, 4, ByteOrder::Little);
    proof {
        lemma_pow256_16();
    }
    let ghost s = bytes@.subrange(start as int, start + 4);
    assert(x as nat == le_value(s));
    assert(x < 0x1_0000_0000);
    let code = x as u32;
    assert(code as nat == le_value(s));
    match char_from_code_point(code) {
        Some(c) => {
            let v = char_value(c);
            Ok(v)
        },
        None => Err(
            EnumFromBytesError {
                invalid_discriminant: Discriminant::U32(code),
                target_type: "char".to_owned(),
            },
        ),
    }
}

/// The value of the field `f` whose bytes stand at `start` in `bytes`, or the
/// error of the first invalid part.
fn read_field(f: &Field, bytes: &[u8], start: usize) -> (r: Result<Value, EnumFromBytesError>)
    requires
        field_error(*f, 0) is None,
        start + field_size(*f) <= bytes@.len(),
    ensures
        ({
            let s = bytes@.subrange(start as int, start + field_size(*f));
            match r {
                Ok(v) => valid(*f, s) && v.model() == decoded(*f, s),
                Err(e) => !valid(*f, s) && (e.invalid_discriminant, e.target_type@) == rejection(
                    *f,
                    s,
                ),
            }
        }),
    decreases *f,
{
    match &f.ty {
        FieldType::Int(s) => {
            let order = if f.tag == Tag::BigEndian {
                ByteOrder::Big
            } else {
                ByteOrder::Little
            };
            let bits = read_uint(bytes, start, s.byte_width(), order);
            Ok(Value::Int(s.value_of_pattern(bits)))
        },
        FieldType::Bytes(n) => Ok(Value::Bytes(copy_bytes(bytes, start, *n))),
        FieldType::Bool => {
            let b = bytes[start];
            if b <= 1 {
                Ok(Value::Bool(b == 1))
            } else {
                Err(
                    EnumFromBytesError {
                        invalid_discriminant: Discriminant::U8(b),
                        target_type: "bool".to_owned(),
                    },
                )
            }
        },
        FieldType::Char => read_char(bytes, start),
        FieldType::Enum(e) => match e.read_at(bytes, start) {
            Ok(i) => Ok(Value::Variant(i)),
            Err(err) => Err(err),
        },
        FieldType::Record(l) => match read_fields(&l.fields, bytes, start) {
            Ok(vs) => Ok(Value::Record(vs)),
            Err(err) => Err(err),
        },
    }
}

/// The values of the fields `fs` whose bytes stand at `start` in `bytes`, or
/// the error of the first invalid field.
fn read_fields(fs: &Vec<Field>, bytes: &[u8], start: usize) -> (r: Result<
    Vec<Value>,
    EnumFromBytesError,
>)
    requires
        fields_error(fs@, 0) is None,
        start + fields_size(fs@) <= bytes@.len(),
    ensures
        ({
            let s = bytes@.subrange(start as int, start + fields_size(fs@));
            match r {
                Ok(vs) => valid_all(fs@, s) && models(vs@) == decoded_all(fs@, s),
                Err(e) => !valid_all(fs@, s) && (e.invalid_discriminant, e.target_type@)
                    == rejection_all(fs@, s),
            }
        }),
    decreases fs@,
{
    let ghost end = start + fields_size(fs@);
    let ghost whole = bytes@.subrange(start as int, end);
    let mut vals: Vec<Value> = Vec::new();
    let mut off: usize = start;
    let blen = bytes.len();
    let mut i: usize = 0;
    assert(fs@.subrange(0, fs@.len() as int) =~= fs@);
    assert(models(vals@) =~= Seq::<Val>::empty());
    while i < fs.len()
        invariant
            i <= fs@.len(),
            end == start + fields_size(fs@),
            end <= bytes@.len(),
            bytes@.len() == blen,
            start <= off,
            whole == bytes@.subrange(start as int, end),
            off + fields_size(fs@.subrange(i as int, fs@.len() as int)) == end,
            fields_error(fs@.subrange(i as int, fs@.len() as int), i as nat) is None,
            valid_all(fs@, whole) == valid_all(
                fs@.subrange(i as int, fs@.len() as int),
                bytes@.subrange(off as int, end),
            ),
            rejection_all(fs@, whole) == rejection_all(
                fs@.subrange(i as int, fs@.len() as int),
                bytes@.subrange(off as int, end),
            ),
            valid_all(fs@, whole) ==> decoded_all(fs@, whole) == models(vals@) + decoded_all(
                fs@.subrange(i as int, fs@.len() as int),
                bytes@.subrange(off as int, end),
            ),
        decreases fs@.len() - i,
    {
        let ghost rest = fs@.subrange(i as int, fs@.len() as int);
        let ghost tail = bytes@.subrange(off as int, end);
        let ghost n = field_size(fs@[i as int]);
        assert(rest[0] == fs@[i as int]);
        assert(rest.subrange(1, rest.len() as int) =~= fs@.subrange(i + 1, fs@.len() as int));
        assert(tail.subrange(0, n as int) =~= bytes@.subrange(off as int, off + n));
        assert(tail.subrange(n as int, tail.len() as int) =~= bytes@.subrange(off + n, end));
        proof {
            lemma_field_error_index(fs@[i as int], i as nat, 0);
        }
        let len = field_len(&fs[i]);
        match read_field(&fs[i], bytes, off) {
            Ok(v) => {
                let ghost old_vals = vals@;
                vals.push(v);
                assert(vals@.subrange(0, vals@.len() - 1) =~= old_vals);
                assert(models(vals@) == models(old_vals).push(v.model()));
                proof {
                    if valid_all(fs@, whole) {
                        assert(models(old_vals) + decoded_all(rest, tail) =~= models(vals@)
                            + decoded_all(
                            fs@.subrange(i + 1, fs@.len() as int),
                            bytes@.subrange(off + n, end),
                        ));
                    }
                }
            },
            Err(e) => {
                assert(rest.len() > 0);
                assert(!valid(rest[0], tail.subrange(0, n as int)));
                assert(!valid_all(rest, tail));
                assert(rejection_all(rest, tail) == rejection(rest[0], tail.subrange(0, n as int)));
                return Err(e);
            },
        }
        off = off + len;
        i = i + 1;
    }
    assert(models(vals@) + decoded_all(
        fs@.subrange(i as int, fs@.len() as int),
        bytes@.subrange(off as int, end),
    ) =~= models(vals@));
    Ok(vals)
}

/// The encoding of a value of a field has the field's size.
pub proof fn lemma_encoded_len(f: Field, v: Val)
    requires
        conforms(f, v),
    ensures
        encoded(f, v).len() == field_size(f),
    decreases f,
{
    match (f.ty, v) {
        (FieldType::Int(s), Val::Int(x)) => {
            lemma_digits_len(order_of(f.tag), twos(x, s.width()), s.width());
        },
        (FieldType::Char, Val::Char(c)) => {
            lemma_digits_len(ByteOrder::Little, c, 4);
        },
        (FieldType::Enum(e), Val::Variant(k)) => {
            lemma_digits_len(e.order_spec(), twos(e.table()[k as int] as int, e.size()), e.size());
        },
        (FieldType::Record(l), Val::Record(vs)) => {
            lemma_encoded_all_len(l.entries(), vs);
        },
        _ => {},
    }
}

/// The encoding of values of fields has the sum of the field sizes: no padding
/// stands between fields.
pub proof fn lemma_encoded_all_len(fs: Seq<Field>, vs: Seq<Val>)
    requires
        all_conform(fs, vs),
    ensures
        encoded_all(fs, vs).len() == fields_size(fs),
    decreases fs,
{
    if fs.len() > 0 {
        lemma_encoded_len(fs[0], vs[0]);
        lemma_encoded_all_len(fs.subrange(1, fs.len() as int), vs.subrange(1, vs.len() as int));
    }
}

/// Decoding the encoding of a value of a field gives the value back.
pub proof fn lemma_field_round_trip(f: Field, v: Val)
    requires
        field_error(f, 0) is None,
        conforms(f, v),
    ensures
        valid(f, encoded(f, v)),
        decoded(f, encoded(f, v)) == v,
    decreases f,
{
    match (f.ty, v) {
        (FieldType::Int(s), Val::Int(x)) => {
            lemma_pattern_round_trip(s, x);
            lemma_value_of_digits(order_of(f.tag), twos(x, s.width()), s.width());
        },
        (FieldType::Char, Val::Char(c)) => {
            lemma_pow256_16();
            lemma_value_of_digits(ByteOrder::Little, c, 4);
        },
        (FieldType::Enum(e), Val::Variant(k)) => {
            lemma_enum_round_trip(e, k as int);
        },
        (FieldType::Record(l), Val::Record(vs)) => {
            lemma_all_round_trip(l.entries(), vs);
        },
        _ => {},
    }
}

/// Decoding the encoding of values of fields gives the values back.
pub proof fn lemma_all_round_trip(fs: Seq<Field>, vs: Seq<Val>)
    requires
        fields_error(fs, 0) is None,
        all_conform(fs, vs),
    ensures
        valid_all(fs, encoded_all(fs, vs)),
        decoded_all(fs, encoded_all(fs, vs)) == vs,
    decreases fs,
{
    lemma_fields_error_suffix(fs, 0);
    if fs.len() == 0 {
        assert(vs =~= Seq::<Val>::empty());
    } else {
        let rest = fs.subrange(1, fs.len() as int);
        let vrest = vs.subrange(1, vs.len() as int);
        lemma_field_error_index(fs[0], 0, 0);
        lemma_field_round_trip(fs[0], vs[0]);
        lemma_all_round_trip(rest, vrest);
        lemma_encoded_len(fs[0], vs[0]);
        let e0 = encoded(fs[0], vs[0]);
        let er = encoded_all(rest, vrest);
        let all = encoded_all(fs, vs);
        assert(all.subrange(0, e0.len() as int) =~= e0);
        assert(all.subrange(e0.len() as int, all.len() as int) =~= er);
        assert(decoded_all(fs, all) =~= vs);
    }
}

/// Every valid byte pattern of a field decodes to a value whose encoding is
/// that pattern.
pub proof fn lemma_field_decoded(f: Field, s: Seq<u8>)
    requires
        field_error(f, 0) is None,
        s.len() == field_size(f),
        valid(f, s),
    ensures
        conforms(f, decoded(f, s)),
        encoded(f, decoded(f, s)) == s,
    decreases f,
{
    match f.ty {
        FieldType::Int(sc) => {
            let o = order_of(f.tag);
            lemma_digits_of_value(o, s);
            lemma_pattern_of_value(sc, value_of(o, s));
        },
        FieldType::Bool => {
            assert(encoded(f, decoded(f, s)) =~= s);
        },
        FieldType::Char => {
            lemma_digits_of_value(ByteOrder::Little, s);
        },
        FieldType::Enum(e) => {
            lemma_enum_decoded_bytes(e, s);
        },
        FieldType::Record(l) => {
            lemma_all_decoded(l.entries(), s);
        },
        _ => {},
    }
}

/// Every valid byte pattern of a list of fields decodes to values whose
/// encoding is that pattern.
pub proof fn lemma_all_decoded(fs: Seq<Field>, s: Seq<u8>)
    requires
        fields_error(fs, 0) is None,
        s.len() == fields_size(fs),
        valid_all(fs, s),
    ensures
        all_conform(fs, decoded_all(fs, s)),
        encoded_all(fs, decoded_all(fs, s)) == s,
    decreases fs,
{
    lemma_fields_error_suffix(fs, 0);
    if fs.len() > 0 {
        let rest = fs.subrange(1, fs.len() as int);
        let n = field_size(fs[0]);
        let head = s.subrange(0, n as int);
        let tail = s.subrange(n as int, s.len() as int);
        lemma_field_error_index(fs[0], 0, 0);
        lemma_field_decoded(fs[0], head);
        lemma_all_decoded(rest, tail);
        let d = decoded_all(fs, s);
        assert(d.subrange(1, d.len() as int) =~= decoded_all(rest, tail));
        assert(encoded_all(fs, d) =~= s);
    } else {
        assert(s =~= Seq::<u8>::empty());
    }
}

/// A list of fields with no schema error has none after its first field.
proof fn lemma_fields_error_suffix(fs: Seq<Field>, base: nat)
    requires
        fields_error(fs, base) is None,
    ensures
        fs.len() > 0 ==> field_error(fs[0], base) is None && fields_error(
            fs.subrange(1, fs.len() as int),
            0,
        ) is None,
{
    if fs.len() > 0 {
        lemma_fields_error_rebase(fs.subrange(1, fs.len() as int), base + 1, 0);
    }
}

/// Whether a list of fields has a schema error does not depend on where its
/// numbering starts.
proof fn lemma_fields_error_rebase(fs: Seq<Field>, a: nat, b: nat)
    ensures
        (fields_error(fs, a) is None) == (fields_error(fs, b) is None),
    decreases fs.len(),
{
    if fs.len() > 0 {
        lemma_field_error_index(fs[0], a, b);
        lemma_fields_error_rebase(fs.subrange(1, fs.len() as int), a + 1, b + 1);
    }
}

/// The size of two field lists one after the other is the sum of their sizes.
pub proof fn lemma_size_additive(a: Seq<Field>, b: Seq<Field>)
    ensures
        fields_size(a + b) == fields_size(a) + fields_size(b),
    decreases a.len(),
{
    if a.len() == 0 {
        assert(a + b =~= b);
    } else {
        let ab = a + b;
        assert(ab[0] == a[0]);
        assert(ab.subrange(1, ab.len() as int) =~= a.subrange(1, a.len() as int) + b);
        lemma_size_additive(a.subrange(1, a.len() as int), b);
    }
}

/// The encoding of two field lists one after the other is the encoding of the
/// first followed by that of the second.
pub proof fn lemma_encoded_concat(a: Seq<Field>, b: Seq<Field>, va: Seq<Val>, vb: Seq<Val>)
    requires
        va.len() == a.len(),
        vb.len() == b.len(),
    ensures
        encoded_all(a + b, va + vb) == encoded_all(a, va) + encoded_all(b, vb),
    decreases a.len(),
{
    if a.len() == 0 {
        assert(a + b =~= b);
        assert(va + vb =~= vb);
        assert(encoded_all(a, va) + encoded_all(b, vb) =~= encoded_all(b, vb));
    } else {
        let ab = a + b;
        let vab = va + vb;
        assert(ab[0] == a[0]);
        assert(vab[0] == va[0]);
        assert(ab.subrange(1, ab.len() as int) =~= a.subrange(1, a.len() as int) + b);
        assert(vab.subrange(1, vab.len() as int) =~= va.subrange(1, va.len() as int) + vb);
        lemma_encoded_concat(a.subrange(1, a.len() as int), b, va.subrange(1, va.len() as int), vb);
        assert(encoded_all(ab, vab) =~= encoded_all(a, va) + encoded_all(b, vb));
    }
}

/// A record holding a nested record as a `transparent` field is encoded as the
/// fields before it, then the nested record's own encoding, then the fields
/// after it, in declared order.
pub proof fn lemma_transparent_composition(
    inner: Layout,
    before: Seq<Field>,
    after: Seq<Field>,
    vbefore: Seq<Val>,
    vinner: Seq<Val>,
    vafter: Seq<Val>,
)
    requires
        vbefore.len() == before.len(),
        vafter.len() == after.len(),
    ensures
        encoded_all(
            before + seq![Field { ty: FieldType::Record(inner), tag: Tag::Transparent }] + after,
            vbefore + seq![Val::Record(vinner)] + vafter,
        ) == encoded_all(before, vbefore) + encoded_all(inner.entries(), vinner) + encoded_all(
            after,
            vafter,
        ),
{
    let nested = seq![Field { ty: FieldType::Record(inner), tag: Tag::Transparent }];
    let vnested = seq![Val::Record(vinner)];
    lemma_encoded_concat(before, nested, vbefore, vnested);
    lemma_encoded_concat(before + nested, after, vbefore + vnested, vafter);
    let f = Field { ty: FieldType::Record(inner), tag: Tag::Transparent };
    assert(nested[0] == f);
    assert(vnested[0] == Val::Record(vinner));
    assert(encoded(f, Val::Record(vinner)) == encoded_all(inner.entries(), vinner));
    assert(nested.subrange(1, 1) =~= Seq::<Field>::empty());
    assert(vnested.subrange(1, 1) =~= Seq::<Val>::empty());
    assert(encoded_all(Seq::<Field>::empty(), Seq::<Val>::empty()) == Seq::<u8>::empty());
    assert(encoded_all(nested, vnested) =~= encoded_all(inner.entries(), vinner));
}

/// Where the bytes of the field at index `k` of `fs` begin.
pub open spec fn offset(fs: Seq<Field>, k: int) -> nat {
    fields_size(fs.subrange(0, k))
}

/// The bytes of the field at index `k` of `fs` within `s`.
pub open spec fn part(fs: Seq<Field>, s: Seq<u8>, k: int) -> Seq<u8> {
    s.subrange(offset(fs, k) as int, (offset(fs, k) + field_size(fs[k])) as int)
}

proof fn lemma_offset_step(fs: Seq<Field>, j: int)
    requires
        0 <= j < fs.len(),
    ensures
        offset(fs, j + 1) == field_size(fs[0]) + offset(fs.subrange(1, fs.len() as int), j),
{
    let p = fs.subrange(0, j + 1);
    assert(p[0] == fs[0]);
    assert(p.subrange(1, p.len() as int) =~= fs.subrange(1, fs.len() as int).subrange(0, j));
}

proof fn lemma_offset_bound(fs: Seq<Field>, k: int)
    requires
        0 <= k < fs.len(),
    ensures
        offset(fs, k) + field_size(fs[k]) <= fields_size(fs),
{
    lemma_size_additive(fs.subrange(0, k), fs.subrange(k, fs.len() as int));
    assert(fs.subrange(0, k) + fs.subrange(k, fs.len() as int) =~= fs);
    let r = fs.subrange(k, fs.len() as int);
    assert(r[0] == fs[k]);
}

/// Decoding a list of fields fails whenever the enum field at index `k` finds
/// no declared discriminant in its bytes; when the fields before it decode,
/// the error is exactly the one that decoding the enum alone from those bytes
/// reports.
pub proof fn lemma_failure_propagates(fs: Seq<Field>, s: Seq<u8>, k: int, e: EnumLayout)
    requires
        0 <= k < fs.len(),
        fs[k].ty == FieldType::Enum(e),
        s.len() == fields_size(fs),
        e.lookup(part(fs, s, k)) is None,
    ensures
        !valid_all(fs, s),
        (forall|j: int| 0 <= j < k ==> valid(#[trigger] fs[j], part(fs, s, j))) ==> rejection_all(
            fs,
            s,
        ) == (tagged(e.repr_spec(), e.read(part(fs, s, k))), e.name_view()),
    decreases k,
{
    let n = field_size(fs[0]);
    assert(fs.subrange(0, 0) =~= Seq::<Field>::empty());
    assert(fields_size(Seq::<Field>::empty()) == 0);
    assert(part(fs, s, 0) == s.subrange(0, n as int));
    if k == 0 {
        assert(fs[0].ty == FieldType::Enum(e));
        assert(!valid(fs[0], s.subrange(0, n as int)));
        assert(rejection(fs[0], s.subrange(0, n as int)) == (
            tagged(e.repr_spec(), e.read(part(fs, s, k))),
            e.name_view(),
        ));
    } else if valid(fs[0], s.subrange(0, n as int)) {
        let rest = fs.subrange(1, fs.len() as int);
        let tail = s.subrange(n as int, s.len() as int);
        lemma_offset_step(fs, k - 1);
        lemma_offset_bound(fs, k);
        lemma_offset_bound(fs, 0);
        assert(rest[k - 1] == fs[k]);
        assert(offset(fs, k) == n + offset(rest, k - 1));
        assert(part(rest, tail, k - 1) =~= part(fs, s, k));
        lemma_failure_propagates(rest, tail, k - 1, e);
        assert(rejection_all(fs, s) == rejection_all(rest, tail));
        if forall|j: int| 0 <= j < k ==> valid(#[trigger] fs[j], part(fs, s, j)) {
            assert forall|j: int| 0 <= j < k - 1 implies valid(#[trigger] rest[j], part(rest, tail, j)) by {
                lemma_offset_step(fs, j);
                lemma_offset_bound(fs, j + 1);
                assert(rest[j] == fs[j + 1]);
                assert(offset(fs, j + 1) == n + offset(rest, j));
                assert(part(rest, tail, j) =~= part(fs, s, j + 1));
                assert(valid(fs[j + 1], part(fs, s, j + 1)));
            }
        }
    } else {
        assert(!valid(fs[0], part(fs, s, 0)));
    }
}

/// Decoding a list of fields none of which may fail accepts every byte
/// pattern of its size; a record with no fields has size zero and decodes
/// from the empty byte sequence.
pub proof fn lemma_infallible_decodes(fs: Seq<Field>, s: Seq<u8>)
    requires
        !fields_fallible(fs),
    ensures
        valid_all(fs, s),
        fs.len() == 0 ==> fields_size(fs) == 0 && decoded_all(fs, s) == Seq::<Val>::empty(),
    decreases fs,
{
    if fs.len() > 0 {
        let n = field_size(fs[0]);
        lemma_infallible_field(fs[0], s.subrange(0, n as int));
        lemma_infallible_decodes(fs.subrange(1, fs.len() as int), s.subrange(n as int, s.len() as int));
    }
}

proof fn lemma_infallible_field(f: Field, s: Seq<u8>)
    requires
        !field_fallible(f),
    ensures
        valid(f, s),
    decreases f,
{
    if let FieldType::Record(l) = f.ty {
        lemma_infallible_decodes(l.entries(), s);
    }
}

} // verus!
