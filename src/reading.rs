//! How primitive encodings read back: statement-level readings of a header
//! and its payload, and proofs that they recover what was written.
use crate::encoding::{byte_range, le_bytes};
use crate::encoding::short_string_header_spec;
use crate::variant::{
    binary_bytes, primitive_bytes, string_bytes, Variant, VariantDecimal16, VariantDecimal4,
    VariantDecimal8,
};
use vstd::utf8::{decode_utf8, encode_utf8};
use vstd::prelude::*;

verus! {

/// The unsigned integer whose little-endian bytes are `b`.
pub open spec fn le_value(b: Seq<u8>) -> nat
    decreases b.len(),
{
    if b.len() == 0 {
        0
    } else {
        b[0] as nat + 256 * le_value(b.drop_first())
    }
}

/// Reading `n` little-endian bytes gives back a value that fits in them.
pub proof fn lemma_le_value(v: nat, n: nat)
    requires
        v < byte_range(n),
    ensures
        le_value(le_bytes(v, n)) == v,
        le_bytes(v, n).len() == n,
    decreases n,
{
    if n > 0 {
        assert(v / 256 < byte_range((n - 1) as nat)) by (nonlinear_arith)
            requires
                v < 256 * byte_range((n - 1) as nat),
        ;
        lemma_le_value(v / 256, (n - 1) as nat);
        let b = le_bytes(v, n);
        assert(b.drop_first() == le_bytes(v / 256, (n - 1) as nat));
        assert(((v % 256) as u8) as nat == v % 256);
    }
}

/// The fixed-width primitive that `bytes` hold, if they hold exactly one.
pub open spec fn read_fixed_primitive(bytes: Seq<u8>) -> Option<Variant> {
    if bytes.len() == 0 || bytes[0] % 4 != 0 {
        None
    } else {
        let t = bytes[0] / 4;
        let p = bytes.drop_first();
        if t == 0 && p.len() == 0 {
            Some(Variant::Null)
        } else if t == 1 && p.len() == 0 {
            Some(Variant::BooleanTrue)
        } else if t == 2 && p.len() == 0 {
            Some(Variant::BooleanFalse)
        } else if t == 3 && p.len() == 1 {
            Some(Variant::Int8(p[0] as i8))
        } else if t == 4 && p.len() == 2 {
            Some(Variant::Int16(le_value(p) as u16 as i16))
        } else if t == 5 && p.len() == 4 {
            Some(Variant::Int32(le_value(p) as u32 as i32))
        } else if t == 6 && p.len() == 8 {
            Some(Variant::Int64(le_value(p) as u64 as i64))
        } else if t == 7 && p.len() == 8 {
            Some(Variant::Double(le_value(p) as u64))
        } else if t == 8 && p.len() == 5 {
            Some(
                Variant::Decimal4(
                    VariantDecimal4 {
                        integer: le_value(p.drop_first()) as u32 as i32,
                        scale: p[0],
                    },
                ),
            )
        } else if t == 9 && p.len() == 9 {
            Some(
                Variant::Decimal8(
                    VariantDecimal8 {
                        integer: le_value(p.drop_first()) as u64 as i64,
                        scale: p[0],
                    },
                ),
            )
        } else if t == 10 && p.len() == 17 {
            Some(
                Variant::Decimal16(
                    VariantDecimal16 {
                        integer: le_value(p.drop_first()) as u128 as i128,
                        scale: p[0],
                    },
                ),
            )
        } else if t == 11 && p.len() == 4 {
            Some(Variant::Date(le_value(p) as u32 as i32))
        } else if t == 12 && p.len() == 8 {
            Some(Variant::TimestampMicros(le_value(p) as u64 as i64))
        } else if t == 13 && p.len() == 8 {
            Some(Variant::TimestampNtzMicros(le_value(p) as u64 as i64))
        } else if t == 14 && p.len() == 4 {
            Some(Variant::Float(le_value(p) as u32))
        } else {
            None
        }
    }
}

/// A value of fixed width: neither a string, a binary, an object nor a list.
pub open spec fn is_fixed_width(v: Variant) -> bool {
    v.is_primitive() && !(v is Binary) && !(v is String) && !(v is ShortString)
}

proof fn lemma_payload(h: u8, v: nat, n: nat)
    requires
        v < byte_range(n),
        h % 4 == 0,
    ensures
        (seq![h] + le_bytes(v, n))[0] == h,
        (seq![h] + le_bytes(v, n)).drop_first() == le_bytes(v, n),
        le_value(le_bytes(v, n)) == v,
        le_bytes(v, n).len() == n,
{
    lemma_le_value(v, n);
    assert((seq![h] + le_bytes(v, n)).drop_first() == le_bytes(v, n));
}

proof fn lemma_scaled_payload(h: u8, scale: u8, v: nat, n: nat)
    requires
        v < byte_range(n),
        h % 4 == 0,
    ensures
        (seq![h, scale] + le_bytes(v, n))[0] == h,
        (seq![h, scale] + le_bytes(v, n)).drop_first() == seq![scale] + le_bytes(v, n),
        (seq![scale] + le_bytes(v, n))[0] == scale,
        (seq![scale] + le_bytes(v, n)).drop_first() == le_bytes(v, n),
        le_value(le_bytes(v, n)) == v,
        le_bytes(v, n).len() == n,
{
    lemma_le_value(v, n);
    assert((seq![h, scale] + le_bytes(v, n)).drop_first() == seq![scale] + le_bytes(v, n));
    assert((seq![scale] + le_bytes(v, n)).drop_first() == le_bytes(v, n));
}

/// Writing a fixed-width primitive and reading its bytes back gives the
/// same value.
pub proof fn lemma_fixed_width_round_trip(v: Variant)
    requires
        is_fixed_width(v),
    ensures
        read_fixed_primitive(primitive_bytes(v)) == Some(v),
{
    reveal_with_fuel(byte_range, 17);
    let b = primitive_bytes(v);
    match v {
        Variant::Null => {},
        Variant::BooleanTrue => {},
        Variant::BooleanFalse => {},
        Variant::Int8(x) => {
            assert(b.drop_first() == seq![x as u8]);
            assert((x as u8) as i8 == x) by (bit_vector);
        },
        Variant::Int16(x) => {
            lemma_payload(b[0], x as u16 as nat, 2);
            assert((x as u16) as i16 == x) by (bit_vector);
        },
        Variant::Int32(x) => {
            lemma_payload(b[0], x as u32 as nat, 4);
            assert((x as u32) as i32 == x) by (bit_vector);
        },
        Variant::Int64(x) => {
            lemma_payload(b[0], x as u64 as nat, 8);
            assert((x as u64) as i64 == x) by (bit_vector);
        },
        Variant::Date(x) => {
            lemma_payload(b[0], x as u32 as nat, 4);
            assert((x as u32) as i32 == x) by (bit_vector);
        },
        Variant::TimestampMicros(x) => {
            lemma_payload(b[0], x as u64 as nat, 8);
            assert((x as u64) as i64 == x) by (bit_vector);
        },
        Variant::TimestampNtzMicros(x) => {
            lemma_payload(b[0], x as u64 as nat, 8);
            assert((x as u64) as i64 == x) by (bit_vector);
        },
        Variant::Decimal4(d) => {
            let x = d.integer;
            lemma_scaled_payload(b[0], d.scale, x as u32 as nat, 4);
            assert((x as u32) as i32 == x) by (bit_vector);
        },
        Variant::Decimal8(d) => {
            let x = d.integer;
            lemma_scaled_payload(b[0], d.scale, x as u64 as nat, 8);
            assert((x as u64) as i64 == x) by (bit_vector);
        },
        Variant::Decimal16(d) => {
            let x = d.integer;
            lemma_scaled_payload(b[0], d.scale, x as u128 as nat, 16);
            assert((x as u128) as i128 == x) by (bit_vector);
        },
        Variant::Float(bits) => {
            lemma_payload(b[0], bits as nat, 4);
        },
        Variant::Double(bits) => {
            lemma_payload(b[0], bits as nat, 8);
        },
        _ => {},
    }
}

/// The payload of a binary value that `bytes` hold, if they hold exactly one.
pub open spec fn read_binary(bytes: Seq<u8>) -> Option<Seq<u8>> {
    if bytes.len() >= 5 && bytes[0] == 60 && le_value(bytes.subrange(1, 5)) == bytes.len() - 5 {
        Some(bytes.subrange(5, bytes.len() as int))
    } else {
        None
    }
}

/// The characters of a string value, short or long, that `bytes` hold, if
/// they hold exactly one.
pub open spec fn read_text(bytes: Seq<u8>) -> Option<Seq<char>> {
    if bytes.len() >= 1 && bytes[0] % 4 == 1 && bytes[0] / 4 == bytes.len() - 1 {
        Some(decode_utf8(bytes.drop_first()))
    } else if bytes.len() >= 5 && bytes[0] == 64 && le_value(bytes.subrange(1, 5)) == bytes.len()
        - 5 {
        Some(decode_utf8(bytes.subrange(5, bytes.len() as int)))
    } else {
        None
    }
}

/// Writing a binary value and reading its bytes back gives the same payload.
pub proof fn lemma_binary_round_trip(b: Seq<u8>)
    requires
        b.len() <= u32::MAX,
    ensures
        read_binary(binary_bytes(b)) == Some(b),
{
    reveal_with_fuel(byte_range, 5);
    lemma_le_value(b.len(), 4);
    let e = binary_bytes(b);
    assert(e.subrange(1, 5) == le_bytes(b.len(), 4));
    assert(e.subrange(5, e.len() as int) == b);
}

/// Writing a long string and reading its bytes back gives the same characters.
pub proof fn lemma_string_round_trip(s: Seq<char>)
    requires
        encode_utf8(s).len() <= u32::MAX,
    ensures
        read_text(string_bytes(s)) == Some(s),
{
    reveal_with_fuel(byte_range, 5);
    let u = encode_utf8(s);
    lemma_le_value(u.len(), 4);
    let e = string_bytes(s);
    assert(e.subrange(1, 5) == le_bytes(u.len(), 4));
    assert(e.subrange(5, e.len() as int) == u);
    vstd::utf8::encode_utf8_decode_utf8(s);
}

/// Writing a short string and reading its bytes back gives the same characters.
pub proof fn lemma_short_string_round_trip(s: Seq<char>)
    requires
        encode_utf8(s).len() <= 63,
    ensures
        read_text(seq![short_string_header_spec(encode_utf8(s).len())] + encode_utf8(s)) == Some(s),
{
    let u = encode_utf8(s);
    let e = seq![short_string_header_spec(u.len())] + u;
    assert(e.drop_first() == u);
    vstd::utf8::encode_utf8_decode_utf8(s);
}

} // verus!
