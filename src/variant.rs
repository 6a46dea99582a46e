//! Values that the builders encode.
use crate::encoding::{
    le_bytes, primitive_header_spec, short_string_header_spec, VariantPrimitiveType,
};
use vstd::prelude::*;
use vstd::utf8::encode_utf8;

verus! {

/// A 4-byte decimal: `integer` scaled down by ten to the power `scale`.
#[derive(Clone, Copy, Debug, PartialEq, Eq)]
pub struct VariantDecimal4 {
    pub integer: i32,
    pub scale: u8,
}

/// An 8-byte decimal: `integer` scaled down by ten to the power `scale`.
#[derive(Clone, Copy, Debug, PartialEq, Eq)]
pub struct VariantDecimal8 {
    pub integer: i64,
    pub scale: u8,
}

/// A 16-byte decimal: `integer` scaled down by ten to the power `scale`.
#[derive(Clone, Copy, Debug, PartialEq, Eq)]
pub struct VariantDecimal16 {
    pub integer: i128,
    pub scale: u8,
}

/// A string of at most 63 UTF-8 bytes, encoded with its length in the header.
#[derive(Debug, PartialEq, Eq)]
pub struct ShortString(pub String);

/// A decoded Variant value.
///
/// Floating-point values are held as their IEEE-754 bit patterns, dates as days
/// since 1970-01-01 and timestamps as microseconds since the Unix epoch.
#[derive(Debug, PartialEq)]
pub enum Variant {
    Null,
    BooleanTrue,
    BooleanFalse,
    Int8(i8),
    Int16(i16),
    Int32(i32),
    Int64(i64),
    Date(i32),
    TimestampMicros(i64),
    TimestampNtzMicros(i64),
    Decimal4(VariantDecimal4),
    Decimal8(VariantDecimal8),
    Decimal16(VariantDecimal16),
    Float(u32),
    Double(u64),
    Binary(Vec<u8>),
    String(String),
    ShortString(ShortString),
    Object(Vec<(String, Variant)>),
    List(Vec<Variant>),
}

/// Largest length of a short string, in bytes.
pub const MAX_SHORT_STRING_BYTES: usize = 63;

impl Variant {
    /// Every length fits its field: short strings in six bits, strings and
    /// binaries in 32 bits.
    pub open spec fn wf(self) -> bool
        decreases self,
    {
        match self {
            Variant::Binary(b) => b@.len() <= u32::MAX,
            Variant::String(s) => encode_utf8(s@).len() <= u32::MAX,
            Variant::ShortString(s) => encode_utf8(s.0@).len() <= 63,
            Variant::Object(fields) => forall|i: int|
                0 <= i < fields@.len() ==> (#[trigger] fields@[i]).1.wf(),
            Variant::List(elems) => forall|i: int|
                0 <= i < elems@.len() ==> (#[trigger] elems@[i]).wf(),
            _ => true,
        }
    }

    /// Neither an object nor a list.
    pub open spec fn is_primitive(self) -> bool {
        !(self is Object) && !(self is List)
    }

    /// A string value: short when it fits in 63 bytes, long otherwise.
    pub fn from_str(s: &str) -> (r: Variant)
        ensures
            encode_utf8(s@).len() <= 63 ==> r == Variant::ShortString(ShortString(r->ShortString_0.0))
                && r->ShortString_0.0@ == s@,
            encode_utf8(s@).len() > 63 ==> r is String && r->String_0@ == s@,
    {
        if s.as_bytes().len() <= MAX_SHORT_STRING_BYTES {
            Variant::ShortString(ShortString(s.to_owned()))
        } else {
            Variant::String(s.to_owned())
        }
    }

    /// A boolean value.
    pub fn from_bool(b: bool) -> (r: Variant)
        ensures
            r == (if b { Variant::BooleanTrue } else { Variant::BooleanFalse }),
    {
        if b {
            Variant::BooleanTrue
        } else {
            Variant::BooleanFalse
        }
    }
}

/// Every field name that occurs in `v`, at any depth.
pub open spec fn names_in(v: Variant) -> Set<Seq<char>>
    decreases v,
{
    match v {
        Variant::List(elems) => list_names(elems@, elems@.len() as int),
        Variant::Object(fields) => object_names(fields@, fields@.len() as int),
        _ => Set::empty(),
    }
}

/// `names_in` over the first `n` elements.
pub open spec fn list_names(elems: Seq<Variant>, n: int) -> Set<Seq<char>>
    decreases elems, n,
{
    if n <= 0 || n > elems.len() {
        Set::empty()
    } else {
        list_names(elems, n - 1) + names_in(elems[n - 1])
    }
}

/// The names of the first `n` fields and every name in their values.
pub open spec fn object_names(fields: Seq<(String, Variant)>, n: int) -> Set<Seq<char>>
    decreases fields, n,
{
    if n <= 0 || n > fields.len() {
        Set::empty()
    } else {
        object_names(fields, n - 1) + field_names(fields[n - 1])
    }
}

/// The name of a field and every name in its value.
pub open spec fn field_names(field: (String, Variant)) -> Set<Seq<char>>
    decreases field,
{
    set![field.0@] + names_in(field.1)
}

/// A value holds finitely many names.
pub proof fn lemma_names_in_finite(v: Variant)
    ensures
        names_in(v).finite(),
    decreases v,
{
    match v {
        Variant::List(elems) => lemma_list_names(elems@, elems@.len() as int),
        Variant::Object(fields) => lemma_object_names(fields@, fields@.len() as int),
        _ => {},
    }
}

/// `list_names` is finite and grows with `n`.
pub proof fn lemma_list_names(elems: Seq<Variant>, n: int)
    requires
        n <= elems.len(),
    ensures
        list_names(elems, n).finite(),
        forall|m: int| 0 <= m <= n ==> list_names(elems, m).subset_of(list_names(elems, n)),
    decreases elems, n,
{
    if 0 < n {
        lemma_list_names(elems, n - 1);
        lemma_names_in_finite(elems[n - 1]);
        assert forall|m: int| 0 <= m <= n implies list_names(elems, m).subset_of(
            list_names(elems, n),
        ) by {
            if m < n {
                assert(list_names(elems, m).subset_of(list_names(elems, n - 1)));
            }
        }
    }
}

/// `object_names` is finite, grows with `n`, and holds exactly the names of
/// the first `n` fields.
pub proof fn lemma_object_names(fields: Seq<(String, Variant)>, n: int)
    requires
        n <= fields.len(),
    ensures
        object_names(fields, n).finite(),
        forall|m: int| 0 <= m <= n ==> object_names(fields, m).subset_of(object_names(fields, n)),
        forall|k: int|
            0 <= k < n && k < fields.len() ==> field_names(fields[k]).subset_of(
                object_names(fields, n),
            ),
        forall|x: Seq<char>|
            object_names(fields, n).contains(x) ==> exists|k: int|
                0 <= k < n && k < fields.len() && (#[trigger] field_names(fields[k])).contains(x),
    decreases fields, n,
{
    if 0 < n {
        lemma_object_names(fields, n - 1);
        lemma_names_in_finite(fields[n - 1].1);
        assert(field_names(fields[n - 1]).finite());
        assert forall|m: int| 0 <= m <= n implies object_names(fields, m).subset_of(
            object_names(fields, n),
        ) by {
            if m < n {
                assert(object_names(fields, m).subset_of(object_names(fields, n - 1)));
            }
        }
        assert forall|x: Seq<char>| object_names(fields, n).contains(x) implies exists|k: int|
            0 <= k < n && k < fields.len() && (#[trigger] field_names(fields[k])).contains(x) by {
            if !object_names(fields, n - 1).contains(x) {
                assert(field_names(fields[n - 1]).contains(x));
            }
        }
    }
}

/// Header, length and bytes of a binary value.
pub open spec fn binary_bytes(b: Seq<u8>) -> Seq<u8> {
    seq![primitive_header_spec(VariantPrimitiveType::Binary)] + le_bytes(b.len(), 4) + b
}

/// Header, length and UTF-8 bytes of a long string.
pub open spec fn string_bytes(s: Seq<char>) -> Seq<u8> {
    seq![primitive_header_spec(VariantPrimitiveType::String)] + le_bytes(encode_utf8(s).len(), 4)
        + encode_utf8(s)
}

/// Header then payload of a primitive value.
pub open spec fn primitive_bytes(v: Variant) -> Seq<u8> {
    match v {
        Variant::Null => seq![primitive_header_spec(VariantPrimitiveType::Null)],
        Variant::BooleanTrue => seq![primitive_header_spec(VariantPrimitiveType::BooleanTrue)],
        Variant::BooleanFalse => seq![primitive_header_spec(VariantPrimitiveType::BooleanFalse)],
        Variant::Int8(x) => seq![primitive_header_spec(VariantPrimitiveType::Int8), x as u8],
        Variant::Int16(x) => seq![primitive_header_spec(VariantPrimitiveType::Int16)] + le_bytes(
            x as u16 as nat,
            2,
        ),
        Variant::Int32(x) => seq![primitive_header_spec(VariantPrimitiveType::Int32)] + le_bytes(
            x as u32 as nat,
            4,
        ),
        Variant::Int64(x) => seq![primitive_header_spec(VariantPrimitiveType::Int64)] + le_bytes(
            x as u64 as nat,
            8,
        ),
        Variant::Date(x) => seq![primitive_header_spec(VariantPrimitiveType::Date)] + le_bytes(
            x as u32 as nat,
            4,
        ),
        Variant::TimestampMicros(x) => seq![
            primitive_header_spec(VariantPrimitiveType::TimestampMicros),
        ] + le_bytes(x as u64 as nat, 8),
        Variant::TimestampNtzMicros(x) => seq![
            primitive_header_spec(VariantPrimitiveType::TimestampNtzMicros),
        ] + le_bytes(x as u64 as nat, 8),
        Variant::Decimal4(d) => seq![primitive_header_spec(VariantPrimitiveType::Decimal4), d.scale]
            + le_bytes(d.integer as u32 as nat, 4),
        Variant::Decimal8(d) => seq![primitive_header_spec(VariantPrimitiveType::Decimal8), d.scale]
            + le_bytes(d.integer as u64 as nat, 8),
        Variant::Decimal16(d) => seq![
            primitive_header_spec(VariantPrimitiveType::Decimal16),
            d.scale,
        ] + le_bytes(d.integer as u128 as nat, 16),
        Variant::Float(bits) => seq![primitive_header_spec(VariantPrimitiveType::Float)] + le_bytes(
            bits as nat,
            4,
        ),
        Variant::Double(bits) => seq![primitive_header_spec(VariantPrimitiveType::Double)]
            + le_bytes(bits as nat, 8),
        Variant::Binary(b) => binary_bytes(b@),
        Variant::String(s) => string_bytes(s@),
        Variant::ShortString(s) => seq![short_string_header_spec(encode_utf8(s.0@).len())]
            + encode_utf8(s.0@),
        _ => Seq::empty(),
    }
}

} // verus!
