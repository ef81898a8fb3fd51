//! Conversion of structured values to and from fixed-size byte sequences, with
//! byte order an explicit property of every multi-byte field.
//!
//! - [`ByteArray`]: fixed-size byte buffers.
//! - [`EndianConvert`], [`BigEndian`], [`LittleEndian`]: integers in a chosen
//!   byte order.
//! - [`IntoByteArray`], [`FromByteArray`], [`TryFromByteArray`], [`Byteable`]:
//!   conversion between a value and its byte array.
//! - [`EnumLayout`]: the decode table of an enumerated type, which rejects
//!   every undeclared discriminant.
//! - [`Layout`]: the byte-exact layout of a record, built once from a schema of
//!   annotated fields, with encoding and decoding of its field values.
use vstd::prelude::*;

pub mod byte_array;
pub mod convert;
pub mod discriminant;
pub mod endian;
pub mod layout;
pub mod wire;

pub use byte_array::ByteArray;
pub use convert::{Byteable, FromByteArray, IntoByteArray, TryFromByteArray, ValidBytecastMarker};
pub use discriminant::{Discriminant, EnumFromBytesError, EnumLayout, Scalar, SchemaError};
pub use endian::{BigEndian, EndianConvert, LittleEndian};
pub use layout::{Field, FieldType, Layout, Tag, Value};
pub use wire::ByteOrder;

verus! {

} // verus!
