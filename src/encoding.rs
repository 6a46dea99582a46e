//! Wire-level building blocks: header bytes, minimal integer widths and
//! little-endian integers.
use vstd::prelude::*;

verus! {

/// Tag in the low two bits of every value header.
#[derive(Clone, Copy, Debug, PartialEq, Eq)]
pub enum VariantBasicType {
    Primitive,
    ShortString,
    Object,
    Array,
}

/// Tag in the upper six bits of a primitive header.
#[derive(Clone, Copy, Debug, PartialEq, Eq)]
pub enum VariantPrimitiveType {
    Null,
    BooleanTrue,
    BooleanFalse,
    Int8,
    Int16,
    Int32,
    Int64,
    Double,
    Decimal4,
    Decimal8,
    Decimal16,
    Date,
    TimestampMicros,
    TimestampNtzMicros,
    Float,
    Binary,
    String,
}

/// Value of a basic type tag.
pub open spec fn basic_type_code(t: VariantBasicType) -> nat {
    match t {
        VariantBasicType::Primitive => 0,
        VariantBasicType::ShortString => 1,
        VariantBasicType::Object => 2,
        VariantBasicType::Array => 3,
    }
}

/// Value of a primitive type tag.
pub open spec fn primitive_type_code(t: VariantPrimitiveType) -> nat {
    match t {
        VariantPrimitiveType::Null => 0,
        VariantPrimitiveType::BooleanTrue => 1,
        VariantPrimitiveType::BooleanFalse => 2,
        VariantPrimitiveType::Int8 => 3,
        VariantPrimitiveType::Int16 => 4,
        VariantPrimitiveType::Int32 => 5,
        VariantPrimitiveType::Int64 => 6,
        VariantPrimitiveType::Double => 7,
        VariantPrimitiveType::Decimal4 => 8,
        VariantPrimitiveType::Decimal8 => 9,
        VariantPrimitiveType::Decimal16 => 10,
        VariantPrimitiveType::Date => 11,
        VariantPrimitiveType::TimestampMicros => 12,
        VariantPrimitiveType::TimestampNtzMicros => 13,
        VariantPrimitiveType::Float => 14,
        VariantPrimitiveType::Binary => 15,
        VariantPrimitiveType::String => 16,
    }
}

fn basic_type_u8(t: VariantBasicType) -> (r: u8)
    ensures
        r as nat == basic_type_code(t),
{
    match t {
        VariantBasicType::Primitive => 0,
        VariantBasicType::ShortString => 1,
        VariantBasicType::Object => 2,
        VariantBasicType::Array => 3,
    }
}

fn primitive_type_u8(t: VariantPrimitiveType) -> (r: u8)
    ensures
        r as nat == primitive_type_code(t),
{
    match t {
        VariantPrimitiveType::Null => 0,
        VariantPrimitiveType::BooleanTrue => 1,
        VariantPrimitiveType::BooleanFalse => 2,
        VariantPrimitiveType::Int8 => 3,
        VariantPrimitiveType::Int16 => 4,
        VariantPrimitiveType::Int32 => 5,
        VariantPrimitiveType::Int64 => 6,
        VariantPrimitiveType::Double => 7,
        VariantPrimitiveType::Decimal4 => 8,
        VariantPrimitiveType::Decimal8 => 9,
        VariantPrimitiveType::Decimal16 => 10,
        VariantPrimitiveType::Date => 11,
        VariantPrimitiveType::TimestampMicros => 12,
        VariantPrimitiveType::TimestampNtzMicros => 13,
        VariantPrimitiveType::Float => 14,
        VariantPrimitiveType::Binary => 15,
        VariantPrimitiveType::String => 16,
    }
}

/// Header byte of a primitive: the primitive type above the basic type tag.
pub open spec fn primitive_header_spec(t: VariantPrimitiveType) -> u8 {
    (primitive_type_code(t) * 4) as u8
}

/// Header byte of a short string of `len` bytes.
pub open spec fn short_string_header_spec(len: nat) -> u8 {
    (len * 4 + 1) as u8
}

/// Header byte of an array.
pub open spec fn array_header_spec(large: bool, offset_size: nat) -> u8 {
    ((if large { 16nat } else { 0nat }) + (offset_size - 1) * 4 + 3) as u8
}

/// Header byte of an object.
pub open spec fn object_header_spec(large: bool, id_size: nat, offset_size: nat) -> u8 {
    ((if large { 64nat } else { 0nat }) + (id_size - 1) * 16 + (offset_size - 1) * 4 + 2) as u8
}

/// Smallest number of bytes that holds `v` as an unsigned integer, at most 4.
pub open spec fn int_size_spec(v: nat) -> nat {
    if v <= 0xFF {
        1
    } else if v <= 0xFFFF {
        2
    } else if v <= 0xFF_FFFF {
        3
    } else {
        4
    }
}

/// Number of values that `n` bytes can hold: 256 to the power `n`.
pub open spec fn byte_range(n: nat) -> nat
    decreases n,
{
    if n == 0 {
        1
    } else {
        256 * byte_range((n - 1) as nat)
    }
}

/// `int_size_spec` picks the fewest bytes, from 1 to 4, that hold `v`.
pub proof fn lemma_int_size_minimal(v: nat)
    requires
        v < byte_range(4),
    ensures
        1 <= int_size_spec(v) <= 4,
        v < byte_range(int_size_spec(v)),
        int_size_spec(v) == 1 || v >= byte_range((int_size_spec(v) - 1) as nat),
{
    reveal_with_fuel(byte_range, 5);
}

/// The `n` low-order bytes of `v`, least significant first.
pub open spec fn le_bytes(v: nat, n: nat) -> Seq<u8>
    decreases n,
{
    if n == 0 {
        Seq::empty()
    } else {
        seq![(v % 256) as u8] + le_bytes(v / 256, (n - 1) as nat)
    }
}

/// Each of `vals` as `n` little-endian bytes, in order.
pub open spec fn le_array(vals: Seq<nat>, n: nat) -> Seq<u8>
    decreases vals.len(),
{
    if vals.len() == 0 {
        Seq::empty()
    } else {
        le_array(vals.drop_last(), n) + le_bytes(vals.last(), n)
    }
}

/// Appending a value appends its bytes.
pub proof fn lemma_le_array_push(vals: Seq<nat>, v: nat, n: nat)
    ensures
        le_array(vals.push(v), n) == le_array(vals, n) + le_bytes(v, n),
{
    assert(vals.push(v).drop_last() == vals);
}

/// Header byte of a primitive of the given type.
pub fn primitive_header(primitive_type: VariantPrimitiveType) -> (r: u8)
    ensures
        r == primitive_header_spec(primitive_type),
{
    primitive_type_u8(primitive_type) * 4 + basic_type_u8(VariantBasicType::Primitive)
}

/// Header byte of a short string; `len` is at most 63.
pub fn short_string_header(len: usize) -> (r: u8)
    requires
        len <= 63,
    ensures
        r == short_string_header_spec(len as nat),
{
    (len as u8) * 4 + basic_type_u8(VariantBasicType::ShortString)
}

/// Header byte of an array; `offset_size` is 1 to 4.
pub fn array_header(large: bool, offset_size: u8) -> (r: u8)
    requires
        1 <= offset_size <= 4,
    ensures
        r == array_header_spec(large, offset_size as nat),
{
    let large_bit: u8 = if large { 1 } else { 0 };
    large_bit * 16 + (offset_size - 1) * 4 + basic_type_u8(VariantBasicType::Array)
}

/// Header byte of an object; both widths are 1 to 4.
pub fn object_header(large: bool, id_size: u8, offset_size: u8) -> (r: u8)
    requires
        1 <= id_size <= 4,
        1 <= offset_size <= 4,
    ensures
        r == object_header_spec(large, id_size as nat, offset_size as nat),
{
    let large_bit: u8 = if large { 1 } else { 0 };
    large_bit * 64 + (id_size - 1) * 16 + (offset_size - 1) * 4 + basic_type_u8(
        VariantBasicType::Object,
    )
}

/// Fewest bytes, from 1 to 4, that hold `v`.
pub fn int_size(v: usize) -> (r: u8)
    ensures
        r as nat == int_size_spec(v as nat),
        1 <= r <= 4,
{
    if v <= 0xFF {
        1
    } else if v <= 0xFFFF {
        2
    } else if v <= 0xFF_FFFF {
        3
    } else {
        4
    }
}

/// Appends the `nbytes` low-order bytes of `value` to `buf`, least significant first.
pub fn push_le(buf: &mut Vec<u8>, value: u128, nbytes: usize)
    ensures
        final(buf)@ == old(buf)@ + le_bytes(value as nat, nbytes as nat),
{
    let ghost start = buf@;
    let mut cur: u128 = value;
    let mut i: usize = 0;
    while i < nbytes
        invariant
            i <= nbytes,
            start + le_bytes(value as nat, nbytes as nat) == buf@ + le_bytes(
                cur as nat,
                (nbytes - i) as nat,
            ),
        decreases nbytes - i,
    {
        let ghost before = buf@;
        buf.push((cur % 256) as u8);
        assert(le_bytes(cur as nat, (nbytes - i) as nat) == seq![(cur % 256) as u8] + le_bytes(
            (cur / 256) as nat,
            (nbytes - i - 1) as nat,
        ));
        assert(buf@ == before + seq![(cur % 256) as u8]);
        cur = cur / 256;
        i = i + 1;
    }
    assert(buf@ + le_bytes(cur as nat, 0) == buf@);
}

/// Writes `value` as a little-endian integer of `nbytes` bytes.
pub fn write_offset(buf: &mut Vec<u8>, value: usize, nbytes: u8)
    ensures
        final(buf)@ == old(buf)@ + le_bytes(value as nat, nbytes as nat),
{
    push_le(buf, value as u128, nbytes as usize);
}

/// Appends every byte of `bytes` to `buf`, in order.
pub fn extend_bytes(buf: &mut Vec<u8>, bytes: &[u8])
    ensures
        final(buf)@ == old(buf)@ + bytes@,
{
    let ghost start = buf@;
    let mut i: usize = 0;
    while i < bytes.len()
        invariant
            i <= bytes@.len(),
            buf@ == start + bytes@.subrange(0, i as int),
        decreases bytes@.len() - i,
    {
        buf.push(bytes[i]);
        assert(bytes@.subrange(0, i + 1) == bytes@.subrange(0, i as int).push(bytes@[i as int]));
        i = i + 1;
    }
    assert(bytes@.subrange(0, bytes@.len() as int) == bytes@);
}

} // verus!
