//! An append-only byte buffer with a writer for each piece of the value encoding.
use crate::encoding::{
    extend_bytes, le_array, le_bytes, primitive_header, primitive_header_spec, push_le,
    short_string_header, VariantPrimitiveType, lemma_le_array_push,
};
use crate::variant::{
    binary_bytes, primitive_bytes, string_bytes, ShortString, Variant, VariantDecimal16, VariantDecimal4, VariantDecimal8,
};
use vstd::prelude::*;
use vstd::utf8::encode_utf8;

verus! {

/// Element count of an array or object: four bytes when large, else one.
pub open spec fn count_bytes(large: bool, n: nat) -> Seq<u8> {
    if large {
        le_bytes(n, 4)
    } else {
        seq![n as u8]
    }
}

/// Offsets as natural numbers.
pub open spec fn offsets_nat(offsets: Seq<usize>) -> Seq<nat> {
    offsets.map_values(|x: usize| x as nat)
}

/// Bytes of a value under construction.
pub struct ValueBuffer(Vec<u8>);

impl View for ValueBuffer {
    type V = Seq<u8>;

    closed spec fn view(&self) -> Seq<u8> {
        self.0@
    }
}

impl ValueBuffer {
    /// An empty buffer.
    pub fn new() -> (r: ValueBuffer)
        ensures
            r@ == Seq::<u8>::empty(),
    {
        ValueBuffer(Vec::new())
    }

    /// A buffer that appends after the bytes of `value`.
    pub fn from_vec(value: Vec<u8>) -> (r: ValueBuffer)
        ensures
            r@ == value@,
    {
        ValueBuffer(value)
    }

    pub fn append_u8(&mut self, term: u8)
        ensures
            final(self)@ == old(self)@.push(term),
    {
        self.0.push(term);
    }

    pub fn append_slice(&mut self, other: &[u8])
        ensures
            final(self)@ == old(self)@ + other@,
    {
        extend_bytes(&mut self.0, other);
    }

    /// Appends the `nbytes` low-order bytes of `value`, least significant first.
    fn append_le(&mut self, value: u128, nbytes: usize)
        ensures
            final(self)@ == old(self)@ + le_bytes(value as nat, nbytes as nat),
    {
        push_le(&mut self.0, value, nbytes);
    }

    pub fn append_primitive_header(&mut self, primitive_type: VariantPrimitiveType)
        ensures
            final(self)@ == old(self)@.push(primitive_header_spec(primitive_type)),
    {
        self.0.push(primitive_header(primitive_type));
    }

    pub fn inner(&self) -> (r: &[u8])
        ensures
            r@ == self@,
    {
        self.0.as_slice()
    }

    pub fn into_inner(self) -> (r: Vec<u8>)
        ensures
            r@ == self@,
    {
        self.0
    }

    pub fn inner_mut(&mut self) -> (r: &mut Vec<u8>)
        ensures
            r@ == old(self)@,
            final(self)@ == final(r)@,
    {
        &mut self.0
    }

    pub fn append_null(&mut self)
        ensures
            final(self)@ == old(self)@ + primitive_bytes(Variant::Null),
    {
        self.append_primitive_header(VariantPrimitiveType::Null);
    }

    pub fn append_bool(&mut self, value: bool)
        ensures
            final(self)@ == old(self)@ + primitive_bytes(
                if value {
                    Variant::BooleanTrue
                } else {
                    Variant::BooleanFalse
                },
            ),
    {
        let primitive_type = if value {
            VariantPrimitiveType::BooleanTrue
        } else {
            VariantPrimitiveType::BooleanFalse
        };
        self.append_primitive_header(primitive_type);
    }

    pub fn append_int8(&mut self, value: i8)
        ensures
            final(self)@ == old(self)@ + primitive_bytes(Variant::Int8(value)),
    {
        self.append_primitive_header(VariantPrimitiveType::Int8);
        self.append_u8(value as u8);
    }

    pub fn append_int16(&mut self, value: i16)
        ensures
            final(self)@ == old(self)@ + primitive_bytes(Variant::Int16(value)),
    {
        self.append_primitive_header(VariantPrimitiveType::Int16);
        self.append_le(value as u16 as u128, 2);
    }

    pub fn append_int32(&mut self, value: i32)
        ensures
            final(self)@ == old(self)@ + primitive_bytes(Variant::Int32(value)),
    {
        self.append_primitive_header(VariantPrimitiveType::Int32);
        self.append_le(value as u32 as u128, 4);
    }

    pub fn append_int64(&mut self, value: i64)
        ensures
            final(self)@ == old(self)@ + primitive_bytes(Variant::Int64(value)),
    {
        self.append_primitive_header(VariantPrimitiveType::Int64);
        self.append_le(value as u64 as u128, 8);
    }

    /// A single-precision float, given by its IEEE-754 bits.
    pub fn append_float(&mut self, bits: u32)
        ensures
            final(self)@ == old(self)@ + primitive_bytes(Variant::Float(bits)),
    {
        self.append_primitive_header(VariantPrimitiveType::Float);
        self.append_le(bits as u128, 4);
    }

    /// A double-precision float, given by its IEEE-754 bits.
    pub fn append_double(&mut self, bits: u64)
        ensures
            final(self)@ == old(self)@ + primitive_bytes(Variant::Double(bits)),
    {
        self.append_primitive_header(VariantPrimitiveType::Double);
        self.append_le(bits as u128, 8);
    }

    /// A date, as days since 1970-01-01.
    pub fn append_date(&mut self, days_since_epoch: i32)
        ensures
            final(self)@ == old(self)@ + primitive_bytes(Variant::Date(days_since_epoch)),
    {
        self.append_primitive_header(VariantPrimitiveType::Date);
        self.append_le(days_since_epoch as u32 as u128, 4);
    }

    /// A UTC timestamp, as microseconds since the Unix epoch.
    pub fn append_timestamp_micros(&mut self, micros: i64)
        ensures
            final(self)@ == old(self)@ + primitive_bytes(Variant::TimestampMicros(micros)),
    {
        self.append_primitive_header(VariantPrimitiveType::TimestampMicros);
        self.append_le(micros as u64 as u128, 8);
    }

    /// A wall-clock timestamp, as microseconds since the Unix epoch.
    pub fn append_timestamp_ntz_micros(&mut self, micros: i64)
        ensures
            final(self)@ == old(self)@ + primitive_bytes(Variant::TimestampNtzMicros(micros)),
    {
        self.append_primitive_header(VariantPrimitiveType::TimestampNtzMicros);
        self.append_le(micros as u64 as u128, 8);
    }

    pub fn append_decimal4(&mut self, decimal4: VariantDecimal4)
        ensures
            final(self)@ == old(self)@ + primitive_bytes(Variant::Decimal4(decimal4)),
    {
        self.append_primitive_header(VariantPrimitiveType::Decimal4);
        self.append_u8(decimal4.scale);
        self.append_le(decimal4.integer as u32 as u128, 4);
    }

    pub fn append_decimal8(&mut self, decimal8: VariantDecimal8)
        ensures
            final(self)@ == old(self)@ + primitive_bytes(Variant::Decimal8(decimal8)),
    {
        self.append_primitive_header(VariantPrimitiveType::Decimal8);
        self.append_u8(decimal8.scale);
        self.append_le(decimal8.integer as u64 as u128, 8);
    }

    pub fn append_decimal16(&mut self, decimal16: VariantDecimal16)
        ensures
            final(self)@ == old(self)@ + primitive_bytes(Variant::Decimal16(decimal16)),
    {
        self.append_primitive_header(VariantPrimitiveType::Decimal16);
        self.append_u8(decimal16.scale);
        self.append_le(decimal16.integer as u128, 16);
    }

    pub fn append_binary(&mut self, value: &[u8])
        requires
            value@.len() <= u32::MAX,
        ensures
            final(self)@ == old(self)@ + binary_bytes(value@),
    {
        self.append_primitive_header(VariantPrimitiveType::Binary);
        self.append_le(value.len() as u128, 4);
        self.append_slice(value);
    }

    pub fn append_short_string(&mut self, value: &ShortString)
        requires
            encode_utf8(value.0@).len() <= 63,
        ensures
            final(self)@ == old(self)@ + primitive_bytes(Variant::ShortString(*value)),
    {
        let inner = value.0.as_str();
        self.append_u8(short_string_header(inner.len()));
        self.append_slice(inner.as_bytes());
    }

    pub fn append_string(&mut self, value: &str)
        requires
            encode_utf8(value@).len() <= u32::MAX,
        ensures
            final(self)@ == old(self)@ + string_bytes(value@),
    {
        self.append_primitive_header(VariantPrimitiveType::String);
        self.append_le(value.len() as u128, 4);
        self.append_slice(value.as_bytes());
    }

    /// Current write position.
    pub fn offset(&self) -> (r: usize)
        ensures
            r == self@.len(),
    {
        self.0.len()
    }

    /// Writes the header byte of an array or object, then its element count.
    pub fn append_header(&mut self, header_byte: u8, is_large: bool, num_items: usize)
        ensures
            final(self)@ == old(self)@.push(header_byte) + count_bytes(is_large, num_items as nat),
    {
        let buf = self.inner_mut();
        buf.push(header_byte);
        if is_large {
            push_le(buf, num_items as u128, 4);
        } else {
            buf.push(num_items as u8);
        }
    }

    /// Writes each offset, then `data_size` if given, each as `nbytes` little-endian bytes.
    pub fn append_offset_array(&mut self, offsets: &[usize], data_size: Option<usize>, nbytes: u8)
        ensures
            final(self)@ == old(self)@ + le_array(
                offsets_nat(offsets@) + match data_size {
                    Some(d) => seq![d as nat],
                    None => Seq::empty(),
                },
                nbytes as nat,
            ),
    {
        let ghost start = self@;
        let ghost vals = offsets_nat(offsets@);
        let mut i: usize = 0;
        while i < offsets.len()
            invariant
                i <= offsets@.len(),
                vals == offsets_nat(offsets@),
                self@ == start + le_array(vals.subrange(0, i as int), nbytes as nat),
            decreases offsets@.len() - i,
        {
            self.append_le(offsets[i] as u128, nbytes as usize);
            proof {
                assert(vals.subrange(0, i + 1) == vals.subrange(0, i as int).push(vals[i as int]));
                lemma_le_array_push(vals.subrange(0, i as int), vals[i as int], nbytes as nat);
            }
            i = i + 1;
        }
        assert(vals.subrange(0, offsets@.len() as int) == vals);
        match data_size {
            Some(d) => {
                self.append_le(d as u128, nbytes as usize);
                proof {
                    lemma_le_array_push(vals, d as nat, nbytes as nat);
                    assert(vals + seq![d as nat] == vals.push(d as nat));
                }
            },
            None => {
                assert(vals + Seq::<nat>::empty() == vals);
            },
        }
    }
}

} // verus!
