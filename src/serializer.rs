//! Encode side: turns a packet's fields, in schema order, into a list of
//! range checks, packed integer writes and delegated writes.
use crate::field::{
    bit_width, field_name, is_bitfield, size_expr, size_expr_spec, ArrayElement, Field, SchemaError, SizeExpr,
};
use crate::width::{mask_bits, storage_width, storage_width_spec, Endianness};
use heck::ToUpperCamelCase;
use vstd::arithmetic::power2::pow2;
use vstd::prelude::*;

verus! {

/// What `heck` makes of a name in UpperCamelCase.
pub uninterp spec fn upper_camel_of(s: Seq<char>) -> Seq<char>;

/// Relies on `heck::ToUpperCamelCase::to_upper_camel_case` for `str`: the
/// result depends on the characters of the name alone.
#[verifier::external_body]
fn to_upper_camel_case(s: &String) -> (r: String)
    ensures
        r@ == upper_camel_of(s@),
{
    s.as_str().to_upper_camel_case()
}

/// An expression giving the value of a bit-packed field at encode time.
#[derive(Debug)]
pub enum ValueExpr {
    /// The bound value of the named field.
    Field { id: String },
    /// A fixed constant.
    Literal { value: u64 },
    /// A fixed enum tag, named by its enum and its tag in UpperCamelCase.
    EnumTag { enum_id: String, tag: String, value: u64 },
    /// The numeric code of the enum value bound to the named field.
    EnumCode { id: String },
    /// The size of the named sibling field, computed as `size` says.
    DerivedSize { field_id: String, size: SizeExpr },
    /// The element count of the named array field.
    Count { field_id: String },
}

/// A value ready to be combined into a chunk: cast to `cast_to` bits when
/// present, then shifted left by `shift`.
#[derive(Debug)]
pub struct PackedValue {
    pub value: ValueExpr,
    pub cast_to: Option<usize>,
    pub shift: usize,
}

/// One operation of a generated encoder.
#[derive(Debug)]
pub enum EncodeOp {
    /// Fail, naming `packet`, `field`, the value and `max`, when `value`
    /// exceeds `max`.
    RangeCheck { packet: String, field: String, value: ValueExpr, max: u64 },
    /// Write a chunk that holds one value as an integer of `width` bits;
    /// `endianness` is absent for a single byte.
    WriteInteger { width: usize, endianness: Option<Endianness>, value: PackedValue },
    /// Combine a value into the chunk being built with bitwise or.
    OrValue { value: PackedValue },
    /// Write the combined chunk as an integer of `width` bits.
    WriteChunk { width: usize, endianness: Option<Endianness> },
    /// Write `count` zero bytes.
    WriteZeroRun { count: usize },
    /// Write each element of an array field in order.
    WriteArray { id: String, element: ArrayElement, endianness: Endianness },
    /// Write a field of a structured type through its own routine.
    DelegateWrite { id: String },
    /// Write the bound child through its own routine, or the raw fallback
    /// bytes, or nothing.
    DispatchWrite { packet: String, children: Vec<String> },
    /// Copy the raw payload bytes.
    WriteRaw,
}

/// A value of the open chunk, with the bit position where its field starts
/// counted from the chunk's most significant bit.
#[derive(Debug)]
pub struct BitValue {
    pub value: ValueExpr,
    pub storage: usize,
    pub start: usize,
    pub width: usize,
}

/// Byte order of an integer of `width` bits; a single byte has none.
pub open spec fn byte_order(width: nat, e: Endianness) -> Option<Endianness> {
    if width > 8 {
        Some(e)
    } else {
        None
    }
}

/// The largest value of `width` bits.
pub open spec fn max_value(width: nat) -> u64 {
    (pow2(width) - 1) as u64
}

/// The range checks that encoding a bit-packable field performs.
pub open spec fn range_checks(f: Field, packet: String) -> Seq<EncodeOp> {
    match f {
        Field::Scalar { id, width } => if storage_width_spec(width as nat) > width {
            seq![
                EncodeOp::RangeCheck {
                    packet,
                    field: id,
                    value: ValueExpr::Field { id },
                    max: max_value(width as nat),
                },
            ]
        } else {
            seq![]
        },
        Field::Size { field_id, width, sibling } => seq![
            EncodeOp::RangeCheck {
                packet,
                field: field_id,
                value: ValueExpr::DerivedSize { field_id, size: size_expr_spec(sibling) },
                max: max_value(width as nat),
            },
        ],
        Field::Count { field_id, width } => seq![
            EncodeOp::RangeCheck {
                packet,
                field: field_id,
                value: ValueExpr::Count { field_id },
                max: max_value(width as nat),
            },
        ],
        _ => seq![],
    }
}

/// `b` is the chunk value of field `f` starting at bit `start`.
pub open spec fn value_of(b: BitValue, f: Field, start: nat) -> bool {
    &&& b.start == start
    &&& b.width == bit_width(f)
    &&& b.storage == storage_width_spec(bit_width(f))
    &&& match f {
        Field::Scalar { id, .. } => b.value == (ValueExpr::Field { id }),
        Field::FixedScalar { value, .. } => b.value == (ValueExpr::Literal { value }),
        Field::FixedEnum { enum_id, tag_id, value, .. } => match b.value {
            ValueExpr::EnumTag { enum_id: e2, tag, value: v } => {
                &&& e2 == enum_id
                &&& tag@ == upper_camel_of(tag_id@)
                &&& v == value
            },
            _ => false,
        },
        Field::EnumScalar { id, .. } => b.value == (ValueExpr::EnumCode { id }),
        Field::Size { field_id, sibling, .. } => b.value == (ValueExpr::DerivedSize {
            field_id,
            size: size_expr_spec(sibling),
        }),
        Field::Count { field_id, .. } => b.value == (ValueExpr::Count { field_id }),
        _ => false,
    }
}

/// `c` is the open chunk `old` after adding field `f` at bit `start`: a
/// reserved field adds no value, the others add one.
pub open spec fn chunk_after(c: Seq<BitValue>, old: Seq<BitValue>, f: Field, start: nat) -> bool {
    if f is Reserved {
        c == old
    } else {
        &&& c.len() == old.len() + 1
        &&& c.drop_last() == old
        &&& value_of(c.last(), f, start)
    }
}

/// A value of a chunk of `total` bits, cast to the chunk's storage when
/// narrower, and shifted to its position.
pub open spec fn packed_value(b: BitValue, total: nat) -> PackedValue {
    PackedValue {
        value: b.value,
        cast_to: if b.storage != storage_width_spec(total) {
            Some(storage_width_spec(total) as usize)
        } else {
            None
        },
        shift: (total - b.start - b.width) as usize,
    }
}

/// The operations that write a closed chunk of `total` bits: a run of zero
/// bytes when it holds no value, one direct write for one value, else one
/// combine per value followed by one write.
pub open spec fn chunk_encode_ops(c: Seq<BitValue>, total: nat, e: Endianness) -> Seq<EncodeOp> {
    if c.len() == 0 {
        seq![EncodeOp::WriteZeroRun { count: (total / 8) as usize }]
    } else if c.len() == 1 {
        seq![
            EncodeOp::WriteInteger {
                width: total as usize,
                endianness: byte_order(total, e),
                value: packed_value(c[0], total),
            },
        ]
    } else {
        Seq::new(c.len(), |i: int| EncodeOp::OrValue { value: packed_value(c[i], total) }).push(
            EncodeOp::WriteChunk { width: total as usize, endianness: byte_order(total, e) },
        )
    }
}

/// Values of an open chunk of `shift` bits.
pub open spec fn values_layout(c: Seq<BitValue>, shift: nat) -> bool {
    forall|i: int|
        0 <= i < c.len() ==> {
            &&& (#[trigger] c[i]).start + c[i].width <= shift
            &&& 1 <= c[i].width <= 64
            &&& c[i].storage == storage_width_spec(c[i].width as nat)
        }
}

/// The operation that writes an array or typedef field.
pub open spec fn whole_field_write(f: Field, packet: String, e: Endianness) -> EncodeOp {
    match f {
        Field::Array { id, element, .. } => EncodeOp::WriteArray { id, element, endianness: e },
        Field::Typedef { id, .. } => EncodeOp::DelegateWrite { id },
        Field::Payload { children, dispatch } => if dispatch {
            EncodeOp::DispatchWrite { packet, children }
        } else {
            EncodeOp::WriteRaw
        },
        _ => arbitrary(),
    }
}

impl ValueExpr {
    /// A copy of the expression.
    pub fn duplicate(&self) -> (r: ValueExpr)
        ensures
            r == *self,
    {
        match self {
            ValueExpr::Field { id } => ValueExpr::Field { id: id.clone() },
            ValueExpr::Literal { value } => ValueExpr::Literal { value: *value },
            ValueExpr::EnumTag { enum_id, tag, value } => ValueExpr::EnumTag {
                enum_id: enum_id.clone(),
                tag: tag.clone(),
                value: *value,
            },
            ValueExpr::EnumCode { id } => ValueExpr::EnumCode { id: id.clone() },
            ValueExpr::DerivedSize { field_id, size } => ValueExpr::DerivedSize {
                field_id: field_id.clone(),
                size: *size,
            },
            ValueExpr::Count { field_id } => ValueExpr::Count { field_id: field_id.clone() },
        }
    }
}

/// The error for an array, typedef or payload field of packet `packet` that
/// arrives when the open chunk is `shift` bits wide in byte order `e`; `None`
/// when it is accepted.
pub open spec fn encode_field_error(f: Field, packet: String, shift: nat, e: Endianness) -> Option<
    SchemaError,
> {
    match f {
        Field::Array { id, .. } => if shift != 0 {
            Some(SchemaError::Unaligned { packet, field: id })
        } else {
            None
        },
        Field::Typedef { id, derived, .. } => if shift != 0 {
            Some(SchemaError::Unaligned { packet, field: id })
        } else if derived {
            Some(SchemaError::DerivedTypedef { packet, field: id })
        } else {
            None
        },
        Field::Payload { .. } => if shift == 0 {
            None
        } else if e == Endianness::Big {
            Some(SchemaError::UnalignedPayload { packet })
        } else {
            Some(SchemaError::UnsupportedShiftedPayload { packet })
        },
        _ => None,
    }
}

fn packed(b: &BitValue, total: usize) -> (r: PackedValue)
    requires
        b.start + b.width <= total <= 64,
        b.storage <= 64,
    ensures
        r == packed_value(*b, total as nat),
{
    let chunk_storage = storage_width(total);
    let cast_to = if b.storage != chunk_storage {
        Some(chunk_storage)
    } else {
        None
    };
    PackedValue { value: b.value.duplicate(), cast_to, shift: total - b.start - b.width }
}

/// Builds the encode operations of one packet, one field at a time.
pub struct FieldSerializer {
    endianness: Endianness,
    packet_name: String,
    chunk: Vec<BitValue>,
    code: Vec<EncodeOp>,
    shift: usize,
}

impl FieldSerializer {
    /// Byte order of the packet.
    pub closed spec fn endianness_spec(&self) -> Endianness {
        self.endianness
    }

    /// Name of the packet.
    pub closed spec fn packet_spec(&self) -> String {
        self.packet_name
    }

    /// Values of the open chunk.
    pub closed spec fn chunk_spec(&self) -> Seq<BitValue> {
        self.chunk@
    }

    /// Operations emitted so far.
    pub closed spec fn code_spec(&self) -> Seq<EncodeOp> {
        self.code@
    }

    /// Bits accumulated in the open chunk.
    pub closed spec fn shift_spec(&self) -> nat {
        self.shift as nat
    }

    /// The open chunk lies within its `shift` bits, and it is empty whenever
    /// `shift` is zero; `shift` is never on a byte boundary but zero.
    pub closed spec fn wf(&self) -> bool {
        &&& self.shift < 64
        &&& self.shift % 8 == 0 ==> self.shift == 0
        &&& self.shift == 0 ==> self.chunk@.len() == 0
        &&& values_layout(self.chunk@, self.shift as nat)
    }

    /// An encoder for the packet `packet_name` in byte order `endianness`.
    pub fn new(endianness: Endianness, packet_name: String) -> (r: FieldSerializer)
        ensures
            r.wf(),
            r.endianness_spec() == endianness,
            r.packet_spec() == packet_name,
            r.chunk_spec().len() == 0,
            r.code_spec().len() == 0,
            r.shift_spec() == 0,
    {
        FieldSerializer { endianness, packet_name, chunk: Vec::new(), code: Vec::new(), shift: 0 }
    }

    /// Adds the next field of the packet. A bit-packable field emits its
    /// range check and joins the open chunk, whose write is emitted once it
    /// reaches a byte boundary; any other field must start on a byte boundary.
    pub fn add(&mut self, field: Field) -> (r: Result<(), SchemaError>)
        requires
            old(self).wf(),
        ensures
            final(self).wf(),
            final(self).endianness_spec() == old(self).endianness_spec(),
            final(self).packet_spec() == old(self).packet_spec(),
            r is Err ==> *final(self) == *old(self),
            is_bitfield(field) && bit_width(field) == 0 ==> r is Ok && *final(self) == *old(self),
            is_bitfield(field) ==> (r is Err <==> bit_width(field) > 64 || old(
                self,
            ).shift_spec() + bit_width(field) > 64),
            is_bitfield(field) && bit_width(field) > 64 ==> r == Err::<(), SchemaError>(
                (SchemaError::InvalidWidth {
                    packet: old(self).packet_spec(),
                    field: field_name(field),
                    width: bit_width(field) as usize,
                }),
            ),
            is_bitfield(field) && bit_width(field) <= 64 && old(self).shift_spec()
                + bit_width(field) > 64 ==> r == Err::<(), SchemaError>(
                (SchemaError::ChunkTooWide {
                    packet: old(self).packet_spec(),
                    field: field_name(field),
                    width: (old(self).shift_spec() + bit_width(field)) as usize,
                }),
            ),
            is_bitfield(field) && bit_width(field) >= 1 && r is Ok ==> exists|c: Seq<BitValue>|
                {
                    let total = old(self).shift_spec() + bit_width(field);
                    let checked = old(self).code_spec() + range_checks(
                        field,
                        old(self).packet_spec(),
                    );
                    &&& #[trigger] chunk_after(
                        c,
                        old(self).chunk_spec(),
                        field,
                        old(self).shift_spec(),
                    )
                    &&& if total % 8 != 0 {
                        &&& final(self).chunk_spec() == c
                        &&& final(self).shift_spec() == total
                        &&& final(self).code_spec() == checked
                    } else {
                        &&& total >= 8
                        &&& final(self).chunk_spec().len() == 0
                        &&& final(self).shift_spec() == 0
                        &&& final(self).code_spec() == checked + chunk_encode_ops(
                            c,
                            total,
                            old(self).endianness_spec(),
                        )
                    }
                },
            !is_bitfield(field) ==> (r is Ok <==> encode_field_error(
                field,
                old(self).packet_spec(),
                old(self).shift_spec(),
                old(self).endianness_spec(),
            ) is None),
            !is_bitfield(field) ==> (r matches Err(e) ==> encode_field_error(
                field,
                old(self).packet_spec(),
                old(self).shift_spec(),
                old(self).endianness_spec(),
            ) == Some(e)),
            !is_bitfield(field) && r is Ok ==> {
                &&& final(self).code_spec() == old(self).code_spec().push(
                    whole_field_write(field, old(self).packet_spec(), old(self).endianness_spec()),
                )
                &&& final(self).chunk_spec() == old(self).chunk_spec()
                &&& final(self).shift_spec() == old(self).shift_spec()
            },
    {
        if field.is_bitfield() {
            return self.add_bit_field(field);
        }
        match field {
            Field::Array { id, element, .. } => self.add_array_field(id, element),
            Field::Typedef { id, derived, .. } => self.add_typedef_field(id, derived),
            Field::Payload { children, dispatch } => self.add_payload_field(children, dispatch),
            _ => {
                proof {
                    assert(false);
                }
                Ok(())
            },
        }
    }

    fn add_bit_field(&mut self, field: Field) -> (r: Result<(), SchemaError>)
        requires
            old(self).wf(),
            is_bitfield(field),
        ensures
            final(self).wf(),
            final(self).endianness_spec() == old(self).endianness_spec(),
            final(self).packet_spec() == old(self).packet_spec(),
            r is Err ==> *final(self) == *old(self),
            r is Err <==> bit_width(field) > 64 || old(self).shift_spec() + bit_width(
                field,
            ) > 64,
            bit_width(field) > 64 ==> r == Err::<(), SchemaError>(
                (SchemaError::InvalidWidth {
                    packet: old(self).packet_spec(),
                    field: field_name(field),
                    width: bit_width(field) as usize,
                }),
            ),
            bit_width(field) <= 64 && old(self).shift_spec() + bit_width(field) > 64 ==> r
                == Err::<(), SchemaError>(
                (SchemaError::ChunkTooWide {
                    packet: old(self).packet_spec(),
                    field: field_name(field),
                    width: (old(self).shift_spec() + bit_width(field)) as usize,
                }),
            ),
            bit_width(field) == 0 ==> r is Ok && *final(self) == *old(self),
            bit_width(field) >= 1 && r is Ok ==> exists|c: Seq<BitValue>|
                {
                    let total = old(self).shift_spec() + bit_width(field);
                    let checked = old(self).code_spec() + range_checks(
                        field,
                        old(self).packet_spec(),
                    );
                    &&& #[trigger] chunk_after(
                        c,
                        old(self).chunk_spec(),
                        field,
                        old(self).shift_spec(),
                    )
                    &&& if total % 8 != 0 {
                        &&& final(self).chunk_spec() == c
                        &&& final(self).shift_spec() == total
                        &&& final(self).code_spec() == checked
                    } else {
                        &&& total >= 8
                        &&& final(self).chunk_spec().len() == 0
                        &&& final(self).shift_spec() == 0
                        &&& final(self).code_spec() == checked + chunk_encode_ops(
                            c,
                            total,
                            old(self).endianness_spec(),
                        )
                    }
                },
    {
        let width = field.width();
        if width > 64 {
            return Err(
                SchemaError::InvalidWidth {
                    packet: self.packet_name.clone(),
                    field: field.name(),
                    width,
                },
            );
        }
        if width == 0 {
            return Ok(());
        }
        if self.shift + width > 64 {
            return Err(
                SchemaError::ChunkTooWide {
                    packet: self.packet_name.clone(),
                    field: field.name(),
                    width: self.shift + width,
                },
            );
        }
        let ghost old_chunk = self.chunk@;
        let ghost old_code = self.code@;
        let ghost f = field;
        let start = self.shift;
        let storage = storage_width(width);
        match field {
            Field::Scalar { id, .. } => {
                if storage > width {
                    let max = mask_bits(width);
                    self.code.push(
                        EncodeOp::RangeCheck {
                            packet: self.packet_name.clone(),
                            field: id.clone(),
                            value: ValueExpr::Field { id: id.clone() },
                            max,
                        },
                    );
                }
                self.chunk.push(BitValue { value: ValueExpr::Field { id }, storage, start, width });
            },
            Field::FixedEnum { enum_id, tag_id, value, .. } => {
                let tag = to_upper_camel_case(&tag_id);
                self.chunk.push(
                    BitValue { value: ValueExpr::EnumTag { enum_id, tag, value }, storage, start, width },
                );
            },
            Field::FixedScalar { value, .. } => {
                self.chunk.push(BitValue { value: ValueExpr::Literal { value }, storage, start, width });
            },
            Field::EnumScalar { id, .. } => {
                self.chunk.push(BitValue { value: ValueExpr::EnumCode { id }, storage, start, width });
            },
            Field::Reserved { .. } => {},
            Field::Size { field_id, sibling, .. } => {
                let size = size_expr(&sibling);
                let max = mask_bits(width);
                self.code.push(
                    EncodeOp::RangeCheck {
                        packet: self.packet_name.clone(),
                        field: field_id.clone(),
                        value: ValueExpr::DerivedSize { field_id: field_id.clone(), size },
                        max,
                    },
                );
                self.chunk.push(
                    BitValue { value: ValueExpr::DerivedSize { field_id, size }, storage, start, width },
                );
            },
            Field::Count { field_id, .. } => {
                let max = mask_bits(width);
                self.code.push(
                    EncodeOp::RangeCheck {
                        packet: self.packet_name.clone(),
                        field: field_id.clone(),
                        value: ValueExpr::Count { field_id: field_id.clone() },
                        max,
                    },
                );
                self.chunk.push(
                    BitValue { value: ValueExpr::Count { field_id }, storage, start, width },
                );
            },
            _ => {
                proof {
                    assert(false);
                }
            },
        }
        self.shift = self.shift + width;
        let ghost c = self.chunk@;
        proof {
            assert(self.code@ =~= old_code + range_checks(f, self.packet_name));
            if !(f is Reserved) {
                assert(c.drop_last() =~= old_chunk);
            }
            assert(chunk_after(c, old_chunk, f, start as nat));
            assert forall|i: int| 0 <= i < c.len() implies {
                &&& (#[trigger] c[i]).start + c[i].width <= self.shift
                &&& 1 <= c[i].width <= 64
                &&& c[i].storage == storage_width_spec(c[i].width as nat)
            } by {
                if i < old_chunk.len() {
                    assert(c[i] == old_chunk[i]);
                }
            }
        }
        if self.shift % 8 == 0 {
            self.pack_bit_fields();
        }
        proof {
            assert(old(self).chunk_spec() == old_chunk);
            assert(chunk_after(c, old(self).chunk_spec(), field, old(self).shift_spec()));
        }
        Ok(())
    }

    /// Emits the write of the open chunk, which has reached a byte boundary,
    /// and starts a new one.
    fn pack_bit_fields(&mut self)
        requires
            values_layout(old(self).chunk@, old(self).shift as nat),
            old(self).shift % 8 == 0,
            8 <= old(self).shift <= 64,
        ensures
            final(self).wf(),
            final(self).endianness == old(self).endianness,
            final(self).packet_name == old(self).packet_name,
            final(self).chunk@.len() == 0,
            final(self).shift == 0,
            final(self).code@ == old(self).code@ + chunk_encode_ops(
                old(self).chunk@,
                old(self).shift as nat,
                old(self).endianness,
            ),
    {
        let total = self.shift;
        let ghost base = self.code@;
        let ghost c = self.chunk@;
        let ghost name = self.packet_name;
        let ghost e = self.endianness;
        let endianness = if total > 8 {
            Some(self.endianness)
        } else {
            None
        };
        let n = self.chunk.len();
        if n == 0 {
            self.code.push(EncodeOp::WriteZeroRun { count: total / 8 });
        } else if n == 1 {
            let value = packed(&self.chunk[0], total);
            self.code.push(EncodeOp::WriteInteger { width: total, endianness, value });
        } else {
            let mut i: usize = 0;
            while i < n
                invariant
                    n == self.chunk@.len(),
                    self.chunk@ == c,
                    self.packet_name == name,
                    self.endianness == e,
                    values_layout(c, total as nat),
                    total <= 64,
                    i <= n,
                    self.code@ == base + Seq::new(
                        i as nat,
                        |j: int| EncodeOp::OrValue { value: packed_value(c[j], total as nat) },
                    ),
                decreases n - i,
            {
                let value = packed(&self.chunk[i], total);
                self.code.push(EncodeOp::OrValue { value });
                proof {
                    assert(self.code@ =~= base + Seq::new(
                        (i + 1) as nat,
                        |j: int| EncodeOp::OrValue { value: packed_value(c[j], total as nat) },
                    ));
                }
                i = i + 1;
            }
            self.code.push(EncodeOp::WriteChunk { width: total, endianness });
        }
        proof {
            assert(self.code@ =~= base + chunk_encode_ops(c, total as nat, e));
        }
        self.chunk = Vec::new();
        self.shift = 0;
    }

    fn add_array_field(&mut self, id: String, element: ArrayElement) -> (r: Result<
        (),
        SchemaError,
    >)
        requires
            old(self).wf(),
        ensures
            r is Ok <==> old(self).shift == 0,
            r matches Err(e) ==> e == (SchemaError::Unaligned {
                packet: old(self).packet_name,
                field: id,
            }) && *final(self) == *old(self),
            r is Ok ==> final(self).code@ == old(self).code@.push(
                EncodeOp::WriteArray { id, element, endianness: old(self).endianness },
            ) && final(self).chunk == old(self).chunk && final(self).shift == old(self).shift
                && final(self).packet_name == old(self).packet_name && final(self).endianness
                == old(self).endianness,
    {
        if self.shift != 0 {
            return Err(SchemaError::Unaligned { packet: self.packet_name.clone(), field: id });
        }
        self.code.push(EncodeOp::WriteArray { id, element, endianness: self.endianness });
        Ok(())
    }

    fn add_typedef_field(&mut self, id: String, derived: bool) -> (r: Result<(), SchemaError>)
        requires
            old(self).wf(),
        ensures
            r is Ok <==> old(self).shift == 0 && !derived,
            r is Err ==> *final(self) == *old(self),
            old(self).shift != 0 ==> r == Err::<(), SchemaError>(
                (SchemaError::Unaligned { packet: old(self).packet_name, field: id }),
            ),
            old(self).shift == 0 && derived ==> r == Err::<(), SchemaError>(
                (SchemaError::DerivedTypedef { packet: old(self).packet_name, field: id }),
            ),
            r is Ok ==> final(self).code@ == old(self).code@.push(EncodeOp::DelegateWrite { id })
                && final(self).chunk == old(self).chunk && final(self).shift == old(self).shift
                && final(self).packet_name == old(self).packet_name && final(self).endianness
                == old(self).endianness,
    {
        if self.shift != 0 {
            return Err(SchemaError::Unaligned { packet: self.packet_name.clone(), field: id });
        }
        if derived {
            return Err(SchemaError::DerivedTypedef { packet: self.packet_name.clone(), field: id });
        }
        self.code.push(EncodeOp::DelegateWrite { id });
        Ok(())
    }

    fn add_payload_field(&mut self, children: Vec<String>, dispatch: bool) -> (r: Result<
        (),
        SchemaError,
    >)
        requires
            old(self).wf(),
        ensures
            r is Ok <==> old(self).shift == 0,
            r is Err ==> *final(self) == *old(self) && r == Err::<(), SchemaError>(
                if old(self).endianness == Endianness::Big {
                    SchemaError::UnalignedPayload { packet: old(self).packet_name }
                } else {
                    SchemaError::UnsupportedShiftedPayload { packet: old(self).packet_name }
                },
            ),
            r is Ok ==> final(self).code@ == old(self).code@.push(
                if dispatch {
                    EncodeOp::DispatchWrite { packet: old(self).packet_name, children }
                } else {
                    EncodeOp::WriteRaw
                },
            ) && final(self).chunk == old(self).chunk && final(self).shift == old(self).shift
                && final(self).packet_name == old(self).packet_name && final(self).endianness
                == old(self).endianness,
    {
        if self.shift != 0 {
            let packet = self.packet_name.clone();
            return match self.endianness {
                Endianness::Big => Err(SchemaError::UnalignedPayload { packet }),
                Endianness::Little => Err(SchemaError::UnsupportedShiftedPayload { packet }),
            };
        }
        if dispatch {
            self.code.push(
                EncodeOp::DispatchWrite { packet: self.packet_name.clone(), children },
            );
        } else {
            self.code.push(EncodeOp::WriteRaw);
        }
        Ok(())
    }

    /// Finishes the packet and hands back its encode operations; fails when
    /// fields are left that do not fill a whole byte.
    pub fn done(self) -> (r: Result<Vec<EncodeOp>, SchemaError>)
        requires
            self.wf(),
        ensures
            r is Ok <==> self.shift_spec() == 0,
            r matches Ok(code) ==> code@ == self.code_spec(),
            r matches Err(e) ==> e == (SchemaError::OpenChunk {
                packet: self.packet_spec(),
                shift: self.shift_spec() as usize,
            }),
    {
        if self.shift != 0 {
            return Err(SchemaError::OpenChunk { packet: self.packet_name, shift: self.shift });
        }
        Ok(self.code)
    }
}

} // verus!
