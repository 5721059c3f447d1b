//! What the generated operation lists do: a specification of the bytes an
//! encode list writes for given values and of the values a decode list binds
//! from given bytes, and interpreters that run the lists and meet it.
use crate::field::{ArrayElement, ArrayExtent};
use crate::parser::{
    chunk_layout, chunk_width, chunk_widths, lemma_chunk_width_prefix, lemma_extraction_matches_packing, shift_mask_op, BitField,
    Binding, DecodeOp,
};
use crate::runtime::{array_bytes, decode_array, encode_array};
use crate::chunk::{
    chunk_bytes, field_value, fits, lemma_chunk_round_trip, lemma_packed_bound, packed, total_width,
    valid_chunk,
};
use crate::serializer::{chunk_encode_ops, packed_value, values_layout, byte_order, BitValue, EncodeOp, ValueExpr};
use crate::width::{storage_width_spec, be_bytes, get_uint, le_bytes, put_uint, uint_bytes, uint_value, Endianness};
use vstd::arithmetic::power2::{lemma2_to64, lemma2_to64_rest, lemma_pow2_adds, lemma_pow2_pos, pow2};
use vstd::bits::{lemma_u64_pow2_no_overflow, lemma_u64_shl_is_mul};
use vstd::prelude::*;

verus! {

/// Position of the first entry named `k`.
pub open spec fn first_index<T>(t: Seq<(String, T)>, k: Seq<char>) -> Option<nat>
    decreases t.len(),
{
    if t.len() == 0 {
        None
    } else if t[0].0@ == k {
        Some(0)
    } else {
        match first_index(t.drop_first(), k) {
            Some(i) => Some(i + 1),
            None => None,
        }
    }
}

proof fn lemma_first_index<T>(t: Seq<(String, T)>, k: Seq<char>, i: int)
    requires
        0 <= i <= t.len(),
        forall|j: int| 0 <= j < i ==> (#[trigger] t[j]).0@ != k,
    ensures
        i == t.len() ==> first_index(t, k) is None,
        i < t.len() && t[i].0@ == k ==> first_index(t, k) == Some(i as nat),
    decreases i,
{
    if i > 0 {
        let d = t.drop_first();
        assert forall|j: int| 0 <= j < i - 1 implies (#[trigger] d[j]).0@ != k by {
            assert(d[j] == t[j + 1]);
        }
        lemma_first_index(d, k, i - 1);
        assert(t[0].0@ != k);
        if i < t.len() {
            assert(d[i - 1] == t[i]);
        }
    }
}

/// Finds the first entry of `t` named `k`.
pub fn find<T>(t: &Vec<(String, T)>, k: &String) -> (r: Option<usize>)
    ensures
        r is None <==> first_index(t@, k@) is None,
        r matches Some(i) ==> first_index(t@, k@) == Some(i as nat) && i < t@.len(),
{
    let mut i: usize = 0;
    while i < t.len()
        invariant
            i <= t@.len(),
            forall|j: int| 0 <= j < i ==> (#[trigger] t@[j]).0@ != k@,
        decreases t.len() - i,
    {
        if t[i].0 == *k {
            proof {
                lemma_first_index(t@, k@, i as int);
            }
            return Some(i);
        }
        i = i + 1;
    }
    proof {
        lemma_first_index(t@, k@, i as int);
    }
    None
}

/// The values an encoder runs with, looked up by field name.
pub struct EncodeEnv {
    /// Values of scalar fields.
    pub values: Vec<(String, u64)>,
    /// Numeric codes of enum-typed fields; a field missing here failed its
    /// conversion.
    pub codes: Vec<(String, u64)>,
    /// Sizes of the fields that size fields measure.
    pub sizes: Vec<(String, u64)>,
    /// Element counts of the arrays that count fields count.
    pub counts: Vec<(String, u64)>,
    /// Elements (or enum codes) of integer arrays.
    pub arrays: Vec<(String, Vec<u64>)>,
    /// Bytes written by the routines of structured fields and arrays.
    pub subs: Vec<(String, Vec<u8>)>,
    /// Bytes of the bound child packet, or the raw payload.
    pub payload: Vec<u8>,
}

/// Why running an encode list failed.
#[derive(Debug, PartialEq, Eq)]
pub enum EncodeFailure {
    /// A range check failed: `value` exceeds `max`.
    OutOfRange { packet: String, field: String, value: u64, max: u64 },
    /// An enum value has no numeric code.
    ConversionFailed { id: String },
    /// No value is bound to the named field.
    Unbound { name: String },
    /// A value does not fit the integer it is written as.
    TooWide,
}

/// A value looked up in an environment table.
pub open spec fn lookup(t: Seq<(String, u64)>, k: String) -> Option<u64> {
    match first_index(t, k@) {
        Some(i) => Some(t[i as int].1),
        None => None,
    }
}

/// The value of an expression in `env`.
pub open spec fn expr_value(v: ValueExpr, env: EncodeEnv) -> Result<u64, EncodeFailure> {
    match v {
        ValueExpr::Field { id } => match lookup(env.values@, id) {
            Some(x) => Ok(x),
            None => Err(EncodeFailure::Unbound { name: id }),
        },
        ValueExpr::Literal { value } => Ok(value),
        ValueExpr::EnumTag { value, .. } => Ok(value),
        ValueExpr::EnumCode { id } => match lookup(env.codes@, id) {
            Some(x) => Ok(x),
            None => Err(EncodeFailure::ConversionFailed { id }),
        },
        ValueExpr::DerivedSize { field_id, .. } => match lookup(env.sizes@, field_id) {
            Some(x) => Ok(x),
            None => Err(EncodeFailure::Unbound { name: field_id }),
        },
        ValueExpr::Count { field_id } => match lookup(env.counts@, field_id) {
            Some(x) => Ok(x),
            None => Err(EncodeFailure::Unbound { name: field_id }),
        },
    }
}

/// Byte order of a write; a single byte has none, and reads the same in both.
pub open spec fn order_of(e: Option<Endianness>) -> Endianness {
    match e {
        Some(x) => x,
        None => Endianness::Big,
    }
}

/// `x` can be written as an integer of `width` bits.
pub open spec fn fits_write(width: nat, x: nat) -> bool {
    &&& 8 <= width <= 64
    &&& width % 8 == 0
    &&& x < pow2(width)
}

/// Every element is below `2^width`.
pub open spec fn all_fit(s: Seq<u64>, width: nat) -> bool {
    forall|i: int| 0 <= i < s.len() ==> (#[trigger] s[i]) < pow2(width)
}

/// The bytes an array of integers of `width` bits is written as.
pub open spec fn int_array_write(
    out: Seq<u8>,
    elems: Option<Seq<u64>>,
    width: nat,
    e: Endianness,
    missing: EncodeFailure,
) -> Result<Seq<u8>, EncodeFailure> {
    match elems {
        None => Err(missing),
        Some(s) => if 8 <= width <= 64 && width % 8 == 0 && all_fit(s, 8 * (width / 8)) {
            Ok(out + array_bytes(s, width / 8, e))
        } else {
            Err(EncodeFailure::TooWide)
        },
    }
}

/// An entry of a table of arrays.
pub open spec fn lookup_seq<T>(t: Seq<(String, Vec<T>)>, k: String) -> Option<Seq<T>> {
    match first_index(t, k@) {
        Some(i) => Some(t[i as int].1@),
        None => None,
    }
}

/// One encode operation, from the bytes written so far and the chunk being
/// combined. Combining adds each value at its shift: the values of a chunk
/// occupy disjoint bits, so this is their bitwise or, and bits no value
/// covers (reserved fields) stay zero.
pub open spec fn enc_step(s: (Seq<u8>, nat), op: EncodeOp, env: EncodeEnv) -> Result<
    (Seq<u8>, nat),
    EncodeFailure,
> {
    let (out, acc) = s;
    match op {
        EncodeOp::RangeCheck { packet, field, value, max } => match expr_value(value, env) {
            Err(e) => Err(e),
            Ok(v) => if v > max {
                Err(EncodeFailure::OutOfRange { packet, field, value: v, max })
            } else {
                Ok(s)
            },
        },
        EncodeOp::WriteInteger { width, endianness, value } => match expr_value(value.value, env) {
            Err(e) => Err(e),
            Ok(v) => {
                let x = (v * pow2(value.shift as nat)) as nat;
                if fits_write(width as nat, x) {
                    Ok((out + uint_bytes(x, (width / 8) as nat, order_of(endianness)), acc))
                } else {
                    Err(EncodeFailure::TooWide)
                }
            },
        },
        EncodeOp::OrValue { value } => match expr_value(value.value, env) {
            Err(e) => Err(e),
            Ok(v) => {
                let x = (acc + v * pow2(value.shift as nat)) as nat;
                if x < pow2(64) {
                    Ok((out, x))
                } else {
                    Err(EncodeFailure::TooWide)
                }
            },
        },
        EncodeOp::WriteChunk { width, endianness } => if fits_write(width as nat, acc) {
            Ok((out + uint_bytes(acc, (width / 8) as nat, order_of(endianness)), 0))
        } else {
            Err(EncodeFailure::TooWide)
        },
        EncodeOp::WriteZeroRun { count } => Ok((out + Seq::new(count as nat, |i: int| 0u8), acc)),
        EncodeOp::WriteArray { id, element, endianness } => match element {
            ArrayElement::Scalar { width } => match int_array_write(
                out,
                lookup_seq(env.arrays@, id),
                width as nat,
                endianness,
                EncodeFailure::Unbound { name: id },
            ) {
                Ok(o) => Ok((o, acc)),
                Err(e) => Err(e),
            },
            ArrayElement::Enum { width } => match int_array_write(
                out,
                lookup_seq(env.arrays@, id),
                width as nat,
                endianness,
                EncodeFailure::ConversionFailed { id },
            ) {
                Ok(o) => Ok((o, acc)),
                Err(e) => Err(e),
            },
            ArrayElement::Structured { .. } => match lookup_seq(env.subs@, id) {
                Some(b) => Ok((out + b, acc)),
                None => Err(EncodeFailure::Unbound { name: id }),
            },
        },
        EncodeOp::DelegateWrite { id } => match lookup_seq(env.subs@, id) {
            Some(b) => Ok((out + b, acc)),
            None => Err(EncodeFailure::Unbound { name: id }),
        },
        EncodeOp::DispatchWrite { .. } => Ok((out + env.payload@, acc)),
        EncodeOp::WriteRaw => Ok((out + env.payload@, acc)),
    }
}

/// Running a whole encode list: the bytes written and the open combination,
/// or the first failure.
pub open spec fn encode_run(ops: Seq<EncodeOp>, env: EncodeEnv) -> Result<
    (Seq<u8>, nat),
    EncodeFailure,
>
    decreases ops.len(),
{
    if ops.len() == 0 {
        Ok((Seq::empty(), 0))
    } else {
        match encode_run(ops.drop_last(), env) {
            Ok(s) => enc_step(s, ops.last(), env),
            Err(e) => Err(e),
        }
    }
}

fn lookup_exec(t: &Vec<(String, u64)>, k: &String) -> (r: Option<u64>)
    ensures
        r == lookup(t@, *k),
{
    match find(t, k) {
        Some(i) => {
            proof {
                assert(first_index(t@, k@) == Some(i as nat));
            }
            Some(t[i].1)
        },
        None => None,
    }
}

fn value_exec(v: &ValueExpr, env: &EncodeEnv) -> (r: Result<u64, EncodeFailure>)
    ensures
        r == expr_value(*v, *env),
{
    match v {
        ValueExpr::Field { id } => match lookup_exec(&env.values, id) {
            Some(x) => Ok(x),
            None => Err(EncodeFailure::Unbound { name: id.clone() }),
        },
        ValueExpr::Literal { value } => Ok(*value),
        ValueExpr::EnumTag { value, .. } => Ok(*value),
        ValueExpr::EnumCode { id } => match lookup_exec(&env.codes, id) {
            Some(x) => Ok(x),
            None => Err(EncodeFailure::ConversionFailed { id: id.clone() }),
        },
        ValueExpr::DerivedSize { field_id, .. } => match lookup_exec(&env.sizes, field_id) {
            Some(x) => Ok(x),
            None => Err(EncodeFailure::Unbound { name: field_id.clone() }),
        },
        ValueExpr::Count { field_id } => match lookup_exec(&env.counts, field_id) {
            Some(x) => Ok(x),
            None => Err(EncodeFailure::Unbound { name: field_id.clone() }),
        },
    }
}

/// `v * 2^shift`, when it fits in 64 bits.
fn shifted(v: u64, shift: usize) -> (r: Option<u64>)
    ensures
        r is Some <==> v * pow2(shift as nat) < pow2(64),
        r matches Some(x) ==> x == v * pow2(shift as nat),
{
    proof {
        lemma2_to64();
        lemma2_to64_rest();
    }
    if v == 0 {
        proof {
            lemma_pow2_pos(shift as nat);
            assert(0 * pow2(shift as nat) == 0);
        }
        return Some(0);
    }
    if shift >= 64 {
        proof {
            if shift > 64 {
                vstd::arithmetic::power2::lemma_pow2_strictly_increases(64, shift as nat);
            }
            assert(v * pow2(shift as nat) >= pow2(shift as nat)) by (nonlinear_arith)
                requires
                    v >= 1,
            ;
        }
        return None;
    }
    proof {
        lemma_u64_pow2_no_overflow(shift as nat);
        lemma_u64_shl_is_mul(1u64, shift as u64);
    }
    let p = 1u64 << (shift as u64);
    v.checked_mul(p)
}

/// Whether `x` fits an integer write of `width` bits.
fn fits_write_exec(width: usize, x: u64) -> (r: bool)
    ensures
        r == fits_write(width as nat, x as nat),
{
    proof {
        lemma2_to64();
        lemma2_to64_rest();
    }
    if width < 8 || width > 64 || width % 8 != 0 {
        return false;
    }
    if width == 64 {
        return true;
    }
    proof {
        lemma_u64_pow2_no_overflow(width as nat);
        lemma_u64_shl_is_mul(1u64, width as u64);
    }
    x < (1u64 << (width as u64))
}

fn write_int_array(
    out: &mut Vec<u8>,
    elems: Option<&Vec<u64>>,
    width: usize,
    e: Endianness,
    missing: EncodeFailure,
) -> (r: Result<(), EncodeFailure>)
    ensures
        match int_array_write(
            old(out)@,
            match elems {
                Some(v) => Some(v@),
                None => None,
            },
            width as nat,
            e,
            missing,
        ) {
            Ok(o) => r is Ok && final(out)@ == o,
            Err(err) => r == Err::<(), EncodeFailure>(err) && final(out)@ == old(out)@,
        },
{
    match elems {
        None => Err(missing),
        Some(v) => {
            if width < 8 || width > 64 || width % 8 != 0 {
                return Err(EncodeFailure::TooWide);
            }
            match encode_array(out, v, width / 8, e) {
                Ok(()) => Ok(()),
                Err(_) => Err(EncodeFailure::TooWide),
            }
        },
    }
}

fn encode_step(out: &mut Vec<u8>, acc: &mut u64, op: &EncodeOp, env: &EncodeEnv) -> (r: Result<
    (),
    EncodeFailure,
>)
    requires
        *old(acc) < pow2(64),
    ensures
        match enc_step((old(out)@, *old(acc) as nat), *op, *env) {
            Ok(s) => r is Ok && final(out)@ == s.0 && *final(acc) as nat == s.1,
            Err(e) => r == Err::<(), EncodeFailure>(e),
        },
{
    proof {
        lemma2_to64();
        lemma2_to64_rest();
    }
    match op {
        EncodeOp::RangeCheck { packet, field, value, max } => {
            let v = match value_exec(value, env) {
                Ok(v) => v,
                Err(e) => {
                    return Err(e);
                },
            };
            if v > *max {
                return Err(
                    EncodeFailure::OutOfRange {
                        packet: packet.clone(),
                        field: field.clone(),
                        value: v,
                        max: *max,
                    },
                );
            }
            Ok(())
        },
        EncodeOp::WriteInteger { width, endianness, value } => {
            let v = match value_exec(&value.value, env) {
                Ok(v) => v,
                Err(e) => {
                    return Err(e);
                },
            };
            let x = match shifted(v, value.shift) {
                Some(x) => x,
                None => {
                    proof {
                        if (*width as nat) < 64 {
                            vstd::arithmetic::power2::lemma_pow2_strictly_increases(
                                *width as nat,
                                64,
                            );
                        }
                    }
                    return Err(EncodeFailure::TooWide);
                },
            };
            if !fits_write_exec(*width, x) {
                return Err(EncodeFailure::TooWide);
            }
            let e = match endianness {
                Some(e) => *e,
                None => Endianness::Big,
            };
            proof {
                assert(8 * (*width as nat / 8) == *width as nat);
            }
            put_uint(out, x, *width / 8, e);
            Ok(())
        },
        EncodeOp::OrValue { value } => {
            let v = match value_exec(&value.value, env) {
                Ok(v) => v,
                Err(e) => {
                    return Err(e);
                },
            };
            let x = match shifted(v, value.shift) {
                Some(x) => x,
                None => {
                    return Err(EncodeFailure::TooWide);
                },
            };
            match acc.checked_add(x) {
                Some(y) => {
                    *acc = y;
                    Ok(())
                },
                None => Err(EncodeFailure::TooWide),
            }
        },
        EncodeOp::WriteChunk { width, endianness } => {
            if !fits_write_exec(*width, *acc) {
                return Err(EncodeFailure::TooWide);
            }
            let e = match endianness {
                Some(e) => *e,
                None => Endianness::Big,
            };
            proof {
                assert(8 * (*width as nat / 8) == *width as nat);
            }
            put_uint(out, *acc, *width / 8, e);
            *acc = 0;
            Ok(())
        },
        EncodeOp::WriteZeroRun { count } => {
            let ghost start = out@;
            let mut i: usize = 0;
            while i < *count
                invariant
                    i <= *count,
                    out@ == start + Seq::new(i as nat, |j: int| 0u8),
                decreases *count - i,
            {
                out.push(0u8);
                i = i + 1;
                proof {
                    assert(out@ =~= start + Seq::new(i as nat, |j: int| 0u8));
                }
            }
            Ok(())
        },
        EncodeOp::WriteArray { id, element, endianness } => {
            let found = find(&env.arrays, id);
            match element {
                ArrayElement::Scalar { width } => {
                    let elems = match found {
                        Some(i) => Some(&env.arrays[i].1),
                        None => None,
                    };
                    write_int_array(
                        out,
                        elems,
                        *width,
                        *endianness,
                        EncodeFailure::Unbound { name: id.clone() },
                    )
                },
                ArrayElement::Enum { width } => {
                    let elems = match found {
                        Some(i) => Some(&env.arrays[i].1),
                        None => None,
                    };
                    write_int_array(
                        out,
                        elems,
                        *width,
                        *endianness,
                        EncodeFailure::ConversionFailed { id: id.clone() },
                    )
                },
                ArrayElement::Structured { .. } => match find(&env.subs, id) {
                    Some(i) => {
                        crate::runtime::write_raw(out, &env.subs[i].1);
                        Ok(())
                    },
                    None => Err(EncodeFailure::Unbound { name: id.clone() }),
                },
            }
        },
        EncodeOp::DelegateWrite { id } => match find(&env.subs, id) {
            Some(i) => {
                crate::runtime::write_raw(out, &env.subs[i].1);
                Ok(())
            },
            None => Err(EncodeFailure::Unbound { name: id.clone() }),
        },
        EncodeOp::DispatchWrite { .. } => {
            crate::runtime::write_raw(out, &env.payload);
            Ok(())
        },
        EncodeOp::WriteRaw => {
            crate::runtime::write_raw(out, &env.payload);
            Ok(())
        },
    }
}

/// Runs an encode list with the values of `env` and returns the bytes it
/// writes, or its first failure.
pub fn run_encode(ops: &Vec<EncodeOp>, env: &EncodeEnv) -> (r: Result<Vec<u8>, EncodeFailure>)
    ensures
        match encode_run(ops@, *env) {
            Ok(s) => r matches Ok(b) && b@ == s.0,
            Err(e) => r == Err::<Vec<u8>, EncodeFailure>(e),
        },
{
    let mut out: Vec<u8> = Vec::new();
    let mut acc: u64 = 0;
    let mut i: usize = 0;
    proof {
        lemma2_to64();
        lemma2_to64_rest();
        assert(ops@.subrange(0, 0) =~= Seq::<EncodeOp>::empty());
    }
    while i < ops.len()
        invariant
            i <= ops@.len(),
            pow2(64) == 0x1_0000_0000_0000_0000,
            acc < pow2(64),
            encode_run(ops@.subrange(0, i as int), *env) == Ok::<(Seq<u8>, nat), EncodeFailure>(
                (out@, acc as nat),
            ),
        decreases ops.len() - i,
    {
        proof {
            assert(ops@.subrange(0, i + 1).drop_last() =~= ops@.subrange(0, i as int));
        }
        let r = encode_step(&mut out, &mut acc, &ops[i], env);
        match r {
            Ok(()) => {},
            Err(e) => {
                proof {
                    lemma_run_stops(ops@, *env, i as int + 1);
                }
                return Err(e);
            },
        }
        i = i + 1;
    }
    proof {
        assert(ops@.subrange(0, ops.len() as int) =~= ops@);
    }
    Ok(out)
}

proof fn lemma_run_stops(ops: Seq<EncodeOp>, env: EncodeEnv, k: int)
    requires
        1 <= k <= ops.len(),
        encode_run(ops.subrange(0, k), env) is Err,
    ensures
        encode_run(ops, env) == encode_run(ops.subrange(0, k), env),
    decreases ops.len() - k,
{
    if k < ops.len() {
        assert(ops.subrange(0, k + 1).drop_last() =~= ops.subrange(0, k));
        lemma_run_stops(ops, env, k + 1);
    } else {
        assert(ops.subrange(0, k) =~= ops);
    }
}

/// A value bound by a decode list.
#[derive(Debug)]
pub enum Decoded {
    /// An integer field, or a size or count to be checked.
    Value { binding: Binding, value: u64 },
    /// The elements of an integer array.
    Array { id: String, values: Vec<u64> },
    /// The bytes of the payload.
    Payload { bytes: Vec<u8> },
}

/// What a `Decoded` holds, with its vectors seen as sequences.
pub ghost enum Bound {
    Value { binding: Binding, value: u64 },
    Array { id: String, values: Seq<u64> },
    Payload { bytes: Seq<u8> },
}

/// The model of a decoded value.
pub open spec fn bound_of(d: Decoded) -> Bound {
    match d {
        Decoded::Value { binding, value } => Bound::Value { binding, value },
        Decoded::Array { id, values } => Bound::Array { id, values: values@ },
        Decoded::Payload { bytes } => Bound::Payload { bytes: bytes@ },
    }
}

/// Why running a decode list failed.
#[derive(Debug, PartialEq, Eq)]
pub enum DecodeFailure {
    /// A bounds check failed: fewer than `wanted` bytes remain.
    InsufficientInput { packet: String, wanted: usize, got: usize },
    /// A read ran past the end of the input.
    Truncated,
    /// A fixed field does not hold its value.
    Mismatch { expected: u64, got: u64 },
    /// No size was decoded for the named field.
    Unbound { name: String },
    /// An array size that is not a whole number of elements.
    InvalidArraySize { size: usize, element: usize },
    /// A width that is no whole number of bytes between 1 and 8.
    Malformed,
    /// The read belongs to another type's routine.
    Delegated,
}

/// The decoded size of field `k`, from the first `SizeOf` binding of it.
pub open spec fn size_of(b: Seq<Bound>, k: Seq<char>) -> Option<u64>
    decreases b.len(),
{
    if b.len() == 0 {
        None
    } else {
        match b[0] {
            Bound::Value { binding: Binding::SizeOf { field_id }, value } => if field_id@ == k {
                Some(value)
            } else {
                size_of(b.drop_first(), k)
            },
            _ => size_of(b.drop_first(), k),
        }
    }
}

/// The decoded element count of field `k`, from the first `CountOf` binding of it.
pub open spec fn count_of(b: Seq<Bound>, k: Seq<char>) -> Option<u64>
    decreases b.len(),
{
    if b.len() == 0 {
        None
    } else {
        match b[0] {
            Bound::Value { binding: Binding::CountOf { field_id }, value } => if field_id@ == k {
                Some(value)
            } else {
                count_of(b.drop_first(), k)
            },
            _ => count_of(b.drop_first(), k),
        }
    }
}

/// Decoder state: position in the input, current chunk, values bound so far.
pub type DecState = (nat, nat, Seq<Bound>);

/// Binds `v` as `binding` says.
pub open spec fn bind(s: DecState, pos: nat, binding: Binding, v: nat) -> Result<
    DecState,
    DecodeFailure,
> {
    match binding {
        Binding::Chunk => Ok((pos, v, s.2)),
        Binding::Discard => Ok((pos, s.1, s.2)),
        Binding::Expect { value } => if v == value {
            Ok((pos, s.1, s.2))
        } else {
            Err(DecodeFailure::Mismatch { expected: value, got: v as u64 })
        },
        _ => Ok((pos, s.1, s.2.push(Bound::Value { binding, value: v as u64 }))),
    }
}

/// The elements of an array of `n`-byte integers taking `size` bytes at `pos`.
pub open spec fn array_values(bytes: Seq<u8>, pos: nat, size: nat, n: nat, e: Endianness) -> Seq<u64> {
    Seq::new(
        size / n,
        |i: int| uint_value(bytes.subrange(pos + i * n, pos + (i + 1) * n), e) as u64,
    )
}

/// Reading an integer array of `width`-bit elements at the current position.
pub open spec fn read_int_array(
    s: DecState,
    bytes: Seq<u8>,
    id: String,
    width: nat,
    extent: ArrayExtent,
    e: Endianness,
) -> Result<DecState, DecodeFailure> {
    let rem = bytes.len() - s.0;
    if !(8 <= width <= 64 && width % 8 == 0) {
        Err(DecodeFailure::Malformed)
    } else {
        let n = width / 8;
        let size: Option<nat> = match extent {
            ArrayExtent::Sized => match size_of(s.2, id@) {
                Some(x) => Some(x as nat),
                None => None,
            },
            ArrayExtent::Counted => match count_of(s.2, id@) {
                Some(k) => Some((k * n) as nat),
                None => None,
            },
            ArrayExtent::Remaining => Some(rem as nat),
        };
        match size {
            None => Err(DecodeFailure::Unbound { name: id }),
            Some(size) => if size % n != 0 {
                Err(DecodeFailure::InvalidArraySize { size: size as usize, element: n as usize })
            } else if size > rem {
                Err(DecodeFailure::Truncated)
            } else {
                Ok(
                    (
                        s.0 + size,
                        s.1,
                        s.2.push(Bound::Array { id, values: array_values(bytes, s.0, size, n, e) }),
                    ),
                )
            },
        }
    }
}

/// A field taken out of chunk `x`: shifted right by `shift`, reduced to
/// `width` bits when `masked`, narrowed to `narrow_to` bits when present.
pub open spec fn extract(x: nat, shift: nat, width: nat, masked: bool, narrow_to: Option<usize>) -> nat {
    let v0 = x / pow2(shift);
    let v1 = if masked {
        v0 % pow2(width)
    } else {
        v0
    };
    match narrow_to {
        Some(w) => v1 % pow2(w as nat),
        None => v1,
    }
}

/// One decode operation.
pub open spec fn dec_step(s: DecState, op: DecodeOp, bytes: Seq<u8>) -> Result<
    DecState,
    DecodeFailure,
> {
    let rem = bytes.len() - s.0;
    match op {
        DecodeOp::BoundsCheck { packet, wanted } => if rem < wanted {
            Err(DecodeFailure::InsufficientInput { packet, wanted, got: rem as usize })
        } else {
            Ok(s)
        },
        DecodeOp::ReadInteger { width, endianness, binding, .. } => if !(8 <= width <= 64 && width
            % 8 == 0) {
            Err(DecodeFailure::Malformed)
        } else if rem < width / 8 {
            Err(DecodeFailure::Truncated)
        } else {
            let n = (width / 8) as nat;
            bind(
                s,
                s.0 + n,
                binding,
                uint_value(bytes.subrange(s.0 as int, (s.0 + n) as int), order_of(endianness)),
            )
        },
        DecodeOp::ShiftMask { binding, shift, width, masked, narrow_to } => bind(
            s,
            s.0,
            binding,
            extract(s.1, shift as nat, width as nat, masked, narrow_to),
        ),
        DecodeOp::CheckSize { packet, field_id } => match size_of(s.2, field_id@) {
            None => Err(DecodeFailure::Unbound { name: field_id }),
            Some(n) => if rem < n {
                Err(DecodeFailure::InsufficientInput { packet, wanted: n as usize, got: rem as usize })
            } else {
                Ok(s)
            },
        },
        DecodeOp::CheckCount { packet, field_id, element_bytes } => match count_of(s.2, field_id@) {
            None => Err(DecodeFailure::Unbound { name: field_id }),
            Some(k) => {
                let wanted = (k * element_bytes) as nat;
                if wanted <= rem {
                    Ok(s)
                } else if wanted <= usize::MAX {
                    Err(DecodeFailure::InsufficientInput { packet, wanted: wanted as usize, got: rem as usize })
                } else {
                    Err(DecodeFailure::Truncated)
                }
            },
        },
        DecodeOp::ReadArray { id, element, extent, endianness } => match element {
            ArrayElement::Scalar { width } => read_int_array(
                s,
                bytes,
                id,
                width as nat,
                extent,
                endianness,
            ),
            ArrayElement::Enum { width } => read_int_array(
                s,
                bytes,
                id,
                width as nat,
                extent,
                endianness,
            ),
            ArrayElement::Structured { .. } => Err(DecodeFailure::Delegated),
        },
        DecodeOp::DelegateRead { .. } => Err(DecodeFailure::Delegated),
        DecodeOp::ReadPayload { .. } => Ok(
            (bytes.len() as nat, s.1, s.2.push(Bound::Payload { bytes: bytes.subrange(s.0 as int, bytes.len() as int) })),
        ),
    }
}

/// Running a whole decode list on `bytes`: the position reached, the last
/// chunk read and the values bound, or the first failure.
pub open spec fn decode_run(ops: Seq<DecodeOp>, bytes: Seq<u8>) -> Result<DecState, DecodeFailure>
    decreases ops.len(),
{
    if ops.len() == 0 {
        Ok((0, 0, Seq::empty()))
    } else {
        match decode_run(ops.drop_last(), bytes) {
            Ok(s) => dec_step(s, ops.last(), bytes),
            Err(e) => Err(e),
        }
    }
}

/// The models of decoded values.
pub open spec fn models(ds: Seq<Decoded>) -> Seq<Bound> {
    ds.map_values(|d: Decoded| bound_of(d))
}

fn size_of_exec(ds: &Vec<Decoded>, k: &String) -> (r: Option<u64>)
    ensures
        r == size_of(models(ds@), k@),
{
    let ghost m = models(ds@);
    let mut i: usize = 0;
    proof {
        assert(m.subrange(0, m.len() as int) =~= m);
    }
    while i < ds.len()
        invariant
            i <= ds@.len(),
            m == models(ds@),
            size_of(m, k@) == size_of(m.subrange(i as int, m.len() as int), k@),
        decreases ds.len() - i,
    {
        proof {
            let rest = m.subrange(i as int, m.len() as int);
            assert(rest.drop_first() =~= m.subrange(i + 1, m.len() as int));
            assert(rest[0] == bound_of(ds@[i as int]));
        }
        match &ds[i] {
            Decoded::Value { binding: Binding::SizeOf { field_id }, value } => {
                if *field_id == *k {
                    return Some(*value);
                }
            },
            _ => {},
        }
        i = i + 1;
    }
    proof {
        assert(m.subrange(i as int, m.len() as int) =~= Seq::<Bound>::empty());
    }
    None
}

fn count_of_exec(ds: &Vec<Decoded>, k: &String) -> (r: Option<u64>)
    ensures
        r == count_of(models(ds@), k@),
{
    let ghost m = models(ds@);
    let mut i: usize = 0;
    proof {
        assert(m.subrange(0, m.len() as int) =~= m);
    }
    while i < ds.len()
        invariant
            i <= ds@.len(),
            m == models(ds@),
            count_of(m, k@) == count_of(m.subrange(i as int, m.len() as int), k@),
        decreases ds.len() - i,
    {
        proof {
            let rest = m.subrange(i as int, m.len() as int);
            assert(rest.drop_first() =~= m.subrange(i + 1, m.len() as int));
            assert(rest[0] == bound_of(ds@[i as int]));
        }
        match &ds[i] {
            Decoded::Value { binding: Binding::CountOf { field_id }, value } => {
                if *field_id == *k {
                    return Some(*value);
                }
            },
            _ => {},
        }
        i = i + 1;
    }
    proof {
        assert(m.subrange(i as int, m.len() as int) =~= Seq::<Bound>::empty());
    }
    None
}

/// `x % 2^w`.
fn mod_pow2(x: u64, w: usize) -> (r: u64)
    ensures
        r == x as nat % pow2(w as nat),
{
    proof {
        lemma2_to64();
        lemma2_to64_rest();
        lemma_pow2_pos(w as nat);
    }
    if w >= 64 {
        proof {
            if w > 64 {
                vstd::arithmetic::power2::lemma_pow2_strictly_increases(64, w as nat);
            }
            vstd::arithmetic::div_mod::lemma_small_mod(x as nat, pow2(w as nat));
        }
        return x;
    }
    proof {
        lemma_u64_pow2_no_overflow(w as nat);
        lemma_u64_shl_is_mul(1u64, w as u64);
    }
    x % (1u64 << (w as u64))
}

/// `x / 2^w`.
fn div_pow2(x: u64, w: usize) -> (r: u64)
    ensures
        r == x as nat / pow2(w as nat),
{
    proof {
        lemma2_to64();
        lemma2_to64_rest();
        lemma_pow2_pos(w as nat);
    }
    if w >= 64 {
        proof {
            if w > 64 {
                vstd::arithmetic::power2::lemma_pow2_strictly_increases(64, w as nat);
            }
            vstd::arithmetic::div_mod::lemma_basic_div(x as int, pow2(w as nat) as int);
        }
        return 0;
    }
    proof {
        vstd::bits::lemma_u64_shr_is_div(x, w as u64);
    }
    x >> (w as u64)
}

fn bind_exec(
    pos: &mut usize,
    chunk: &mut u64,
    out: &mut Vec<Decoded>,
    new_pos: usize,
    binding: Binding,
    v: u64,
) -> (r: Result<(), DecodeFailure>)
    ensures
        match bind((*old(pos) as nat, *old(chunk) as nat, models(old(out)@)), new_pos as nat, binding, v as nat) {
            Ok(s) => r is Ok && *final(pos) == s.0 && *final(chunk) == s.1 && models(final(out)@) == s.2,
            Err(e) => r == Err::<(), DecodeFailure>(e),
        },
{
    match binding {
        Binding::Chunk => {
            *pos = new_pos;
            *chunk = v;
            Ok(())
        },
        Binding::Discard => {
            *pos = new_pos;
            Ok(())
        },
        Binding::Expect { value } => {
            if v != value {
                return Err(DecodeFailure::Mismatch { expected: value, got: v });
            }
            *pos = new_pos;
            Ok(())
        },
        _ => {
            let ghost before = out@;
            out.push(Decoded::Value { binding, value: v });
            proof {
                assert(models(out@) =~= models(before).push(Bound::Value { binding, value: v }));
            }
            *pos = new_pos;
            Ok(())
        },
    }
}

fn check_count_exec(
    out: &Vec<Decoded>,
    rem: usize,
    packet: &String,
    field_id: &String,
    element_bytes: usize,
) -> (r: Result<(), DecodeFailure>)
    ensures
        ({
            let wanted_of = |k: u64| (k * element_bytes) as nat;
            match count_of(models(out@), field_id@) {
                None => r == Err::<(), DecodeFailure>(DecodeFailure::Unbound { name: *field_id }),
                Some(k) => if wanted_of(k) <= rem {
                    r is Ok
                } else if wanted_of(k) <= usize::MAX {
                    r == Err::<(), DecodeFailure>(
                        DecodeFailure::InsufficientInput {
                            packet: *packet,
                            wanted: wanted_of(k) as usize,
                            got: rem,
                        },
                    )
                } else {
                    r == Err::<(), DecodeFailure>(DecodeFailure::Truncated)
                },
            }
        }),
{
    match count_of_exec(out, field_id) {
        None => Err(DecodeFailure::Unbound { name: field_id.clone() }),
        Some(k) => {
            match k.checked_mul(element_bytes as u64) {
                Some(wanted) => {
                    if wanted <= rem as u64 {
                        return Ok(());
                    }
                    if wanted <= usize::MAX as u64 {
                        return Err(
                            DecodeFailure::InsufficientInput {
                                packet: packet.clone(),
                                wanted: wanted as usize,
                                got: rem,
                            },
                        );
                    }
                    Err(DecodeFailure::Truncated)
                },
                None => Err(DecodeFailure::Truncated),
            }
        },
    }
}

fn read_array_exec(
    bytes: &[u8],
    pos: &mut usize,
    chunk: u64,
    out: &mut Vec<Decoded>,
    id: &String,
    width: usize,
    extent: ArrayExtent,
    endianness: Endianness,
) -> (r: Result<(), DecodeFailure>)
    requires
        *old(pos) <= bytes@.len(),
    ensures
        match read_int_array(
            (*old(pos) as nat, chunk as nat, models(old(out)@)),
            bytes@,
            *id,
            width as nat,
            extent,
            endianness,
        ) {
            Ok(s) => r is Ok && *final(pos) == s.0 && models(final(out)@) == s.2,
            Err(e) => r == Err::<(), DecodeFailure>(e),
        },
        r is Ok ==> *final(pos) <= bytes@.len(),
{
    let len = bytes.len();
    let rem = len - *pos;
    if width < 8 || width > 64 || width % 8 != 0 {
        return Err(DecodeFailure::Malformed);
    }
    let n = width / 8;
    let size64: u64 = match extent {
        ArrayExtent::Sized => match size_of_exec(out, id) {
            Some(x) => x,
            None => {
                return Err(DecodeFailure::Unbound { name: id.clone() });
            },
        },
        ArrayExtent::Counted => match count_of_exec(out, id) {
            Some(k) => match k.checked_mul(n as u64) {
                Some(x) => x,
                None => {
                    proof {
                        let kk = k as int;
                        let nn = n as int;
                        assert((kk * nn) % nn == 0) by (nonlinear_arith)
                            requires
                                nn >= 1,
                        ;
                    }
                    return Err(DecodeFailure::Truncated);
                },
            },
            None => {
                return Err(DecodeFailure::Unbound { name: id.clone() });
            },
        },
        ArrayExtent::Remaining => rem as u64,
    };
    if size64 % (n as u64) != 0 {
        return Err(DecodeFailure::InvalidArraySize { size: size64 as usize, element: n });
    }
    if size64 > rem as u64 {
        return Err(DecodeFailure::Truncated);
    }
    let size = size64 as usize;
    match decode_array(bytes, *pos, size, n, endianness) {
        Ok(values) => {
            let ghost before = out@;
            proof {
                let nn = n as int;
                let ln = values@.len() as int;
                assert(ln == (size as int) / nn) by (nonlinear_arith)
                    requires
                        ln * nn == size as int,
                        nn >= 1,
                ;
                assert(values@ =~= array_values(bytes@, *pos as nat, size as nat, n as nat, endianness));
            }
            out.push(Decoded::Array { id: id.clone(), values });
            proof {
                assert(models(out@) =~= models(before).push(
                    Bound::Array {
                        id: *id,
                        values: array_values(bytes@, *pos as nat, size as nat, n as nat, endianness),
                    },
                ));
            }
            *pos = *pos + size;
            Ok(())
        },
        Err(_) => Err(DecodeFailure::Truncated),
    }
}

fn decode_step(
    bytes: &[u8],
    pos: &mut usize,
    chunk: &mut u64,
    out: &mut Vec<Decoded>,
    op: &DecodeOp,
) -> (r: Result<(), DecodeFailure>)
    requires
        *old(pos) <= bytes@.len(),
    ensures
        match dec_step((*old(pos) as nat, *old(chunk) as nat, models(old(out)@)), *op, bytes@) {
            Ok(s) => r is Ok && *final(pos) == s.0 && *final(chunk) == s.1 && models(final(out)@)
                == s.2,
            Err(e) => r == Err::<(), DecodeFailure>(e),
        },
        r is Ok ==> *final(pos) <= bytes@.len(),
{
    proof {
        lemma2_to64();
        lemma2_to64_rest();
    }
    let len = bytes.len();
    let rem = len - *pos;
    match op {
        DecodeOp::BoundsCheck { packet, wanted } => {
            if rem < *wanted {
                return Err(
                    DecodeFailure::InsufficientInput { packet: packet.clone(), wanted: *wanted, got: rem },
                );
            }
            Ok(())
        },
        DecodeOp::ReadInteger { width, endianness, binding, .. } => {
            if *width < 8 || *width > 64 || *width % 8 != 0 {
                return Err(DecodeFailure::Malformed);
            }
            let n = *width / 8;
            if rem < n {
                return Err(DecodeFailure::Truncated);
            }
            let e = match endianness {
                Some(e) => *e,
                None => Endianness::Big,
            };
            let v = get_uint(bytes, *pos, n, e);
            let p = *pos + n;
            bind_exec(pos, chunk, out, p, binding.clone_binding(), v)
        },
        DecodeOp::ShiftMask { binding, shift, width, masked, narrow_to } => {
            let v0 = div_pow2(*chunk, *shift);
            let v1 = if *masked {
                mod_pow2(v0, *width)
            } else {
                v0
            };
            let v2 = match narrow_to {
                Some(w) => mod_pow2(v1, *w),
                None => v1,
            };
            let p = *pos;
            bind_exec(pos, chunk, out, p, binding.clone_binding(), v2)
        },
        DecodeOp::CheckSize { packet, field_id } => match size_of_exec(out, field_id) {
            None => Err(DecodeFailure::Unbound { name: field_id.clone() }),
            Some(n) => {
                if (rem as u64) < n {
                    return Err(
                        DecodeFailure::InsufficientInput {
                            packet: packet.clone(),
                            wanted: n as usize,
                            got: rem,
                        },
                    );
                }
                Ok(())
            },
        },
        DecodeOp::CheckCount { packet, field_id, element_bytes } => check_count_exec(
            out,
            rem,
            packet,
            field_id,
            *element_bytes,
        ),
        DecodeOp::ReadArray { id, element, extent, endianness } => {
            let width = match element {
                ArrayElement::Scalar { width } => *width,
                ArrayElement::Enum { width } => *width,
                ArrayElement::Structured { .. } => {
                    return Err(DecodeFailure::Delegated);
                },
            };
            read_array_exec(bytes, pos, *chunk, out, id, width, *extent, *endianness)
        },
        DecodeOp::DelegateRead { .. } => Err(DecodeFailure::Delegated),
        DecodeOp::ReadPayload { .. } => {
            let mut b: Vec<u8> = Vec::new();
            let mut i: usize = *pos;
            while i < len
                invariant
                    *pos <= i <= len,
                    len == bytes@.len(),
                    b@ == bytes@.subrange(*pos as int, i as int),
                decreases len - i,
            {
                b.push(bytes[i]);
                i = i + 1;
                proof {
                    assert(b@ =~= bytes@.subrange(*pos as int, i as int));
                }
            }
            let ghost before = out@;
            out.push(Decoded::Payload { bytes: b });
            proof {
                assert(models(out@) =~= models(before).push(
                    Bound::Payload { bytes: bytes@.subrange(*pos as int, len as int) },
                ));
            }
            *pos = len;
            Ok(())
        },
    }
}

proof fn lemma_decode_stops(ops: Seq<DecodeOp>, bytes: Seq<u8>, k: int)
    requires
        1 <= k <= ops.len(),
        decode_run(ops.subrange(0, k), bytes) is Err,
    ensures
        decode_run(ops, bytes) == decode_run(ops.subrange(0, k), bytes),
    decreases ops.len() - k,
{
    if k < ops.len() {
        assert(ops.subrange(0, k + 1).drop_last() =~= ops.subrange(0, k));
        lemma_decode_stops(ops, bytes, k + 1);
    } else {
        assert(ops.subrange(0, k) =~= ops);
    }
}

/// Runs a decode list on `bytes` and returns how many bytes it consumed and
/// the values it bound, or its first failure.
pub fn run_decode(ops: &Vec<DecodeOp>, bytes: &[u8]) -> (r: Result<
    (usize, Vec<Decoded>),
    DecodeFailure,
>)
    ensures
        match decode_run(ops@, bytes@) {
            Ok(s) => r matches Ok((p, ds)) && p == s.0 && models(ds@) == s.2,
            Err(e) => r == Err::<(usize, Vec<Decoded>), DecodeFailure>(e),
        },
{
    let mut pos: usize = 0;
    let mut chunk: u64 = 0;
    let mut out: Vec<Decoded> = Vec::new();
    let mut i: usize = 0;
    proof {
        assert(ops@.subrange(0, 0) =~= Seq::<DecodeOp>::empty());
        assert(models(out@) =~= Seq::<Bound>::empty());
    }
    while i < ops.len()
        invariant
            i <= ops@.len(),
            pos <= bytes@.len(),
            decode_run(ops@.subrange(0, i as int), bytes@) == Ok::<DecState, DecodeFailure>(
                (pos as nat, chunk as nat, models(out@)),
            ),
        decreases ops.len() - i,
    {
        proof {
            assert(ops@.subrange(0, i + 1).drop_last() =~= ops@.subrange(0, i as int));
        }
        let r = decode_step(bytes, &mut pos, &mut chunk, &mut out, &ops[i]);
        match r {
            Ok(()) => {},
            Err(e) => {
                proof {
                    lemma_decode_stops(ops@, bytes@, i as int + 1);
                }
                return Err(e);
            },
        }
        i = i + 1;
    }
    proof {
        assert(ops@.subrange(0, ops.len() as int) =~= ops@);
    }
    Ok((pos, out))
}

/// The integer a closed chunk of `total` bits is written as: each value of
/// the chunk at its shift, `total - start - width`.
pub open spec fn chunk_sum(c: Seq<BitValue>, vals: Seq<u64>, total: nat) -> nat
    decreases c.len(),
{
    if c.len() == 0 || vals.len() == 0 {
        0
    } else {
        chunk_sum(c.drop_last(), vals.drop_last(), total) + vals.last() as nat * pow2(
            (total - c.last().start - c.last().width) as nat,
        )
    }
}

/// Widths of the values of a chunk.
pub open spec fn value_widths(c: Seq<BitValue>) -> Seq<usize> {
    c.map_values(|b: BitValue| b.width)
}

/// The values of a chunk follow one another with no gap: each starts where
/// the previous one ends.
pub open spec fn contiguous(c: Seq<BitValue>) -> bool {
    forall|i: int| 0 <= i < c.len() ==> (#[trigger] c[i]).start == total_width(value_widths(c).subrange(0, i))
}

proof fn lemma_chunk_sum_shifted(c: Seq<BitValue>, vals: Seq<u64>, k: nat)
    requires
        contiguous(c),
        vals.len() == c.len(),
    ensures
        chunk_sum(c, vals, total_width(value_widths(c)) + k) == packed(vals, value_widths(c)) * pow2(k),
    decreases c.len(),
{
    let ws = value_widths(c);
    if c.len() == 0 {
        assert(packed(vals, ws) == 0);
        assert(0 * pow2(k) == 0) by (nonlinear_arith);
    } else {
        let n = c.len() as int;
        let c2 = c.drop_last();
        let v2 = vals.drop_last();
        let w = c[n - 1].width as nat;
        assert(value_widths(c2) =~= ws.drop_last());
        assert(contiguous(c2)) by {
            assert forall|i: int| 0 <= i < c2.len() implies (#[trigger] c2[i]).start == total_width(
                value_widths(c2).subrange(0, i),
            ) by {
                assert(value_widths(c2).subrange(0, i) =~= ws.subrange(0, i));
                assert(c2[i] == c[i]);
            }
        }
        assert(ws.subrange(0, n - 1) =~= ws.drop_last());
        assert(c[n - 1].start == total_width(ws.drop_last()));
        lemma_chunk_sum_shifted(c2, v2, w + k);
        lemma_pow2_adds(w, k);
        let a = packed(v2, ws.drop_last());
        let v = vals.last() as nat;
        assert(total_width(ws) == total_width(ws.drop_last()) + w);
        assert(chunk_sum(c, vals, total_width(ws) + k) == a * pow2(w + k) + v * pow2(k));
        assert(packed(vals, ws) == a * pow2(w) + v);
        assert(a * (pow2(w) * pow2(k)) + v * pow2(k) == (a * pow2(w) + v) * pow2(k)) by (nonlinear_arith);
    }
}

/// For a chunk whose values follow one another with no gap, the written
/// integer is the packed chunk: the first value in the most significant bits.
pub proof fn lemma_chunk_sum_is_packed(c: Seq<BitValue>, vals: Seq<u64>)
    requires
        contiguous(c),
        vals.len() == c.len(),
    ensures
        chunk_sum(c, vals, total_width(value_widths(c))) == packed(vals, value_widths(c)),
{
    lemma_chunk_sum_shifted(c, vals, 0);
    assert(pow2(0) == 1) by {
        lemma2_to64();
    }
}

proof fn lemma_chunk_sum_prefix(c: Seq<BitValue>, vals: Seq<u64>, total: nat, j: int)
    requires
        0 <= j <= c.len(),
        vals.len() == c.len(),
    ensures
        chunk_sum(c.subrange(0, j), vals.subrange(0, j), total) <= chunk_sum(c, vals, total),
    decreases c.len(),
{
    if j < c.len() {
        lemma_chunk_sum_prefix(c.drop_last(), vals.drop_last(), total, j);
        assert(c.drop_last().subrange(0, j) =~= c.subrange(0, j));
        assert(vals.drop_last().subrange(0, j) =~= vals.subrange(0, j));
    } else {
        assert(c.subrange(0, j) =~= c);
        assert(vals.subrange(0, j) =~= vals);
    }
}

/// The combine operations of a chunk of several values.
pub open spec fn or_ops(c: Seq<BitValue>, total: nat) -> Seq<EncodeOp> {
    Seq::new(c.len(), |i: int| EncodeOp::OrValue { value: packed_value(c[i], total) })
}

proof fn lemma_or_prefix(
    pre: Seq<EncodeOp>,
    out: Seq<u8>,
    c: Seq<BitValue>,
    vals: Seq<u64>,
    total: nat,
    env: EncodeEnv,
    j: int,
)
    requires
        encode_run(pre, env) == Ok::<(Seq<u8>, nat), EncodeFailure>((out, 0nat)),
        0 <= j <= c.len(),
        vals.len() == c.len(),
        values_layout(c, total),
        total <= 64,
        forall|i: int| 0 <= i < c.len() ==> expr_value((#[trigger] c[i]).value, env) == Ok::<u64, EncodeFailure>(vals[i]),
        chunk_sum(c, vals, total) < pow2(total),
    ensures
        encode_run(pre + or_ops(c, total).subrange(0, j), env) == Ok::<(Seq<u8>, nat), EncodeFailure>(
            (out, chunk_sum(c.subrange(0, j), vals.subrange(0, j), total)),
        ),
    decreases j,
{
    let ors = or_ops(c, total);
    if j == 0 {
        assert(pre + ors.subrange(0, 0) =~= pre);
        assert(c.subrange(0, 0) =~= Seq::<BitValue>::empty());
    } else {
        lemma_or_prefix(pre, out, c, vals, total, env, j - 1);
        let ops = pre + ors.subrange(0, j);
        assert(ops.drop_last() =~= pre + ors.subrange(0, j - 1));
        assert(ops.last() == EncodeOp::OrValue { value: packed_value(c[j - 1], total) });
        let cj = c.subrange(0, j);
        let vj = vals.subrange(0, j);
        assert(cj.drop_last() =~= c.subrange(0, j - 1));
        assert(vj.drop_last() =~= vals.subrange(0, j - 1));
        assert(cj.last() == c[j - 1]);
        assert(vj.last() == vals[j - 1]);
        assert(expr_value(c[j - 1].value, env) == Ok::<u64, EncodeFailure>(vals[j - 1]));
        lemma_chunk_sum_prefix(c, vals, total, j);
        lemma2_to64();
        lemma2_to64_rest();
        if total < 64 {
            vstd::arithmetic::power2::lemma_pow2_strictly_increases(total, 64);
        }
        assert(c[j - 1].start + c[j - 1].width <= total);
    }
}

/// Running the operations of a closed chunk after operations that leave
/// nothing combined appends the chunk's integer, `chunk_sum`, as `total / 8`
/// bytes in the packet's byte order.
pub proof fn lemma_chunk_write(
    pre: Seq<EncodeOp>,
    out: Seq<u8>,
    c: Seq<BitValue>,
    vals: Seq<u64>,
    total: nat,
    e: Endianness,
    env: EncodeEnv,
)
    requires
        encode_run(pre, env) == Ok::<(Seq<u8>, nat), EncodeFailure>((out, 0nat)),
        c.len() >= 1,
        vals.len() == c.len(),
        values_layout(c, total),
        8 <= total <= 64,
        total % 8 == 0,
        forall|i: int| 0 <= i < c.len() ==> expr_value((#[trigger] c[i]).value, env) == Ok::<u64, EncodeFailure>(vals[i]),
        chunk_sum(c, vals, total) < pow2(total),
    ensures
        encode_run(pre + chunk_encode_ops(c, total, e), env) == Ok::<(Seq<u8>, nat), EncodeFailure>(
            (out + uint_bytes(chunk_sum(c, vals, total), total / 8, e), 0nat),
        ),
{
    let x = chunk_sum(c, vals, total);
    assert(order_of(byte_order(total, e)) == e || total == 8);
    assert(uint_bytes(x, 1, Endianness::Big) == uint_bytes(x, 1, Endianness::Little)) by {
        reveal_with_fuel(be_bytes, 2);
        reveal_with_fuel(le_bytes, 2);
        assert(be_bytes(x, 1) =~= le_bytes(x, 1));
    }
    assert(total == 8 ==> total / 8 == 1);
    if c.len() == 1 {
        let ops = pre + chunk_encode_ops(c, total, e);
        assert(ops.drop_last() =~= pre);
        assert(c.drop_last().len() == 0);
        assert(chunk_sum(c.drop_last(), vals.drop_last(), total) == 0);
        assert(c.last() == c[0]);
        assert(vals.last() == vals[0]);
        assert(x == vals[0] * pow2((total - c[0].start - c[0].width) as nat));
        assert(expr_value(c[0].value, env) == Ok::<u64, EncodeFailure>(vals[0]));
        assert(c[0].start + c[0].width <= total);
    } else {
        lemma_or_prefix(pre, out, c, vals, total, env, c.len() as int);
        let ors = or_ops(c, total);
        assert(ors.subrange(0, c.len() as int) =~= ors);
        assert(c.subrange(0, c.len() as int) =~= c);
        assert(vals.subrange(0, c.len() as int) =~= vals);
        let ops = pre + chunk_encode_ops(c, total, e);
        assert(chunk_encode_ops(c, total, e) =~= ors.push(
            EncodeOp::WriteChunk { width: total as usize, endianness: byte_order(total, e) },
        ));
        assert(ops.drop_last() =~= pre + ors);
    }
}

/// Round trip through the encoder's operations: for a chunk whose values
/// follow one another with no gap and fit their widths, the chunk's encode
/// operations write the packed chunk (first value in the most significant
/// bits), and every field read back from those bytes is the value encoded.
pub proof fn lemma_encoded_chunk_round_trip(
    pre: Seq<EncodeOp>,
    out: Seq<u8>,
    c: Seq<BitValue>,
    vals: Seq<u64>,
    e: Endianness,
    env: EncodeEnv,
)
    requires
        encode_run(pre, env) == Ok::<(Seq<u8>, nat), EncodeFailure>((out, 0nat)),
        contiguous(c),
        valid_chunk(value_widths(c)),
        values_layout(c, total_width(value_widths(c))),
        fits(vals, value_widths(c)),
        forall|i: int| 0 <= i < c.len() ==> expr_value((#[trigger] c[i]).value, env) == Ok::<u64, EncodeFailure>(vals[i]),
    ensures
        encode_run(pre + chunk_encode_ops(c, total_width(value_widths(c)), e), env) == Ok::<
            (Seq<u8>, nat),
            EncodeFailure,
        >(
            (
                out + uint_bytes(packed(vals, value_widths(c)), chunk_bytes(value_widths(c)), e),
                0nat,
            ),
        ),
        forall|i: int|
            0 <= i < vals.len() ==> #[trigger] field_value(
                uint_value(
                    uint_bytes(packed(vals, value_widths(c)), chunk_bytes(value_widths(c)), e),
                    e,
                ),
                value_widths(c),
                i,
            ) == vals[i],
{
    let ws = value_widths(c);
    lemma_chunk_sum_is_packed(c, vals);
    lemma_packed_bound(vals, ws);
    lemma_chunk_write(pre, out, c, vals, total_width(ws), e, env);
    lemma_chunk_round_trip(vals, ws, e);
}

proof fn lemma_small_pow2_mod(y: nat, w: nat, st: nat)
    requires
        y < pow2(w),
        w <= st,
    ensures
        y % pow2(st) == y,
{
    if w < st {
        vstd::arithmetic::power2::lemma_pow2_strictly_increases(w, st);
    }
    lemma_pow2_pos(st);
    vstd::arithmetic::div_mod::lemma_small_mod(y, pow2(st));
}

/// The extraction the decoder emits for field `i` of a closed chunk, run on
/// any chunk integer of the chunk's width, yields that field's packed value:
/// its mask and narrowing never lose or keep a wrong bit.
pub proof fn lemma_extraction_value(c: Seq<BitField>, i: int, x: nat)
    requires
        chunk_layout(c),
        chunk_width(c) <= 64,
        0 <= i < c.len(),
        x < pow2(chunk_width(c)),
    ensures
        shift_mask_op(c[i], chunk_width(c)) matches DecodeOp::ShiftMask {
            shift,
            width,
            masked,
            narrow_to,
            ..
        } && extract(x, shift as nat, width as nat, masked, narrow_to) == field_value(
            x,
            chunk_widths(c),
            i,
        ),
{
    lemma_extraction_matches_packing(c, i);
    let t = chunk_width(c);
    let b = c[i];
    let w = crate::field::bit_width(b.field);
    let sh = (t - b.start - w) as nat;
    let st = storage_width_spec(w);
    let y = x / pow2(sh);
    lemma_chunk_width_prefix(c, i + 1);
    assert(c.subrange(0, i + 1).drop_last() =~= c.subrange(0, i));
    assert(c.subrange(0, i + 1).last() == c[i]);
    assert(b.start + w <= t);
    lemma_pow2_pos(sh);
    lemma_pow2_pos(w);
    lemma_pow2_adds(sh, w);
    assert(st >= w);
    if b.start > 0 && w < st {
        // masked, then possibly narrowed to a width no smaller than `w`
        vstd::arithmetic::div_mod::lemma_mod_bound(y as int, pow2(w) as int);
        lemma_small_pow2_mod(y % pow2(w), w, st);
    } else if b.start == 0 {
        assert(sh + w == t);
        let p = pow2(sh);
        let q = pow2(w);
        assert(y < q) by (nonlinear_arith)
            requires
                x < p * q,
                p > 0,
                y == x / p,
        ;
        lemma_small_pow2_mod(y, w, w);
        lemma_small_pow2_mod(y, w, st);
    } else {
        assert(st == w);
        assert(storage_width_spec(t) >= t);
        assert(t > w);
    }
}

} // verus!
