//! Decode side: turns a packet's fields, in schema order, into a list of
//! bounds-checked reads and shift / mask extractions.
use crate::chunk::{bits_below, lemma_total_split, total_width};
use crate::field::{bit_width, field_name, is_bitfield, ArrayElement, ArrayExtent, Field, SchemaError};
use crate::width::{storage_width, storage_width_spec, Endianness};
use vstd::prelude::*;

verus! {

/// A field of the open chunk, with the bit position where it starts counted
/// from the chunk's most significant bit.
#[derive(Debug)]
pub struct BitField {
    pub start: usize,
    pub field: Field,
}

/// What a decoded value is bound to.
#[derive(Clone, Debug, PartialEq, Eq)]
pub enum Binding {
    /// The transient integer holding a whole multi-field chunk.
    Chunk,
    /// The value of a scalar or enum-typed field.
    Value { id: String },
    /// The decoded size of the named field, which bounds the read of that field.
    SizeOf { field_id: String },
    /// The decoded element count of the named array.
    CountOf { field_id: String },
    /// A fixed field: the value must equal this literal.
    Expect { value: u64 },
    /// A reserved field: nothing is bound.
    Discard,
}

impl Binding {
    /// A copy of the binding.
    pub fn clone_binding(&self) -> (r: Binding)
        ensures
            r == *self,
    {
        match self {
            Binding::Chunk => Binding::Chunk,
            Binding::Value { id } => Binding::Value { id: id.clone() },
            Binding::SizeOf { field_id } => Binding::SizeOf { field_id: field_id.clone() },
            Binding::CountOf { field_id } => Binding::CountOf { field_id: field_id.clone() },
            Binding::Expect { value } => Binding::Expect { value: *value },
            Binding::Discard => Binding::Discard,
        }
    }
}

/// One operation of a generated decoder.
#[derive(Debug)]
pub enum DecodeOp {
    /// Fail with an insufficient-input error naming `packet` when fewer than
    /// `wanted` bytes remain.
    BoundsCheck { packet: String, wanted: usize },
    /// Read an integer of `width` bits (`width / 8` bytes) into a variable of
    /// `storage` bits; `endianness` is absent for a single byte.
    ReadInteger {
        width: usize,
        storage: usize,
        endianness: Option<Endianness>,
        binding: Binding,
    },
    /// Take a field out of the chunk: shift right by `shift`, keep the low
    /// `width` bits when `masked`, narrow to `narrow_to` bits when present.
    ShiftMask {
        binding: Binding,
        shift: usize,
        width: usize,
        masked: bool,
        narrow_to: Option<usize>,
    },
    /// Fail with an insufficient-input error naming `packet` when fewer bytes
    /// remain than the decoded `SizeOf { field_id }` binding.
    CheckSize { packet: String, field_id: String },
    /// Fail with an insufficient-input error naming `packet` when fewer bytes
    /// remain than the decoded `CountOf { field_id }` binding times
    /// `element_bytes`.
    CheckCount { packet: String, field_id: String, element_bytes: usize },
    /// Read the elements of an array field: as many bytes as its `SizeOf`
    /// binding gives, as many elements as its `CountOf` binding gives, or up
    /// to the end of the input, as `extent` says.
    ReadArray { id: String, element: ArrayElement, extent: ArrayExtent, endianness: Endianness },
    /// Read a field of a structured type through that type's own routine.
    DelegateRead { id: String, type_id: String },
    /// Read the tail: with `dispatch`, a choice among `children`; else raw bytes.
    ReadPayload { children: Vec<String>, dispatch: bool },
}

/// Sum of the widths of the fields of a chunk.
pub open spec fn chunk_width(c: Seq<BitField>) -> nat
    decreases c.len(),
{
    if c.len() == 0 {
        0
    } else {
        chunk_width(c.drop_last()) + bit_width(c.last().field)
    }
}

/// The layout of an open chunk: consecutive bit-packable fields of 1 to 64
/// bits, each starting where the previous one ends.
pub open spec fn chunk_layout(c: Seq<BitField>) -> bool {
    forall|i: int|
        0 <= i < c.len() ==> {
            &&& is_bitfield(#[trigger] c[i].field)
            &&& 1 <= bit_width(c[i].field) <= 64
            &&& c[i].start == chunk_width(c.subrange(0, i))
        }
}

/// What the decoded value of a field is bound to.
pub open spec fn binding_spec(f: Field) -> Binding {
    match f {
        Field::Scalar { id, .. } => Binding::Value { id },
        Field::EnumScalar { id, .. } => Binding::Value { id },
        Field::Size { field_id, .. } => Binding::SizeOf { field_id },
        Field::Count { field_id, .. } => Binding::CountOf { field_id },
        Field::FixedScalar { value, .. } => Binding::Expect { value },
        Field::FixedEnum { value, .. } => Binding::Expect { value },
        _ => Binding::Discard,
    }
}

/// The read of an integer of `width` bits.
pub open spec fn read_op(width: nat, e: Endianness, binding: Binding) -> DecodeOp {
    DecodeOp::ReadInteger {
        width: width as usize,
        storage: storage_width_spec(width) as usize,
        endianness: if width > 8 {
            Some(e)
        } else {
            None
        },
        binding,
    }
}

/// The extraction of one field from a chunk of `total` bits.
pub open spec fn shift_mask_op(b: BitField, total: nat) -> DecodeOp {
    let w = bit_width(b.field);
    DecodeOp::ShiftMask {
        binding: binding_spec(b.field),
        shift: (total - b.start - w) as usize,
        width: w as usize,
        masked: b.start > 0 && w < storage_width_spec(w),
        narrow_to: if storage_width_spec(w) < storage_width_spec(total) {
            Some(storage_width_spec(w) as usize)
        } else {
            None
        },
    }
}

/// The operations that decode a closed chunk of `total` bits: a bounds check,
/// one read, and for a chunk of several fields one extraction per field.
pub open spec fn chunk_decode_ops(
    packet: String,
    e: Endianness,
    c: Seq<BitField>,
    total: nat,
) -> Seq<DecodeOp> {
    let check = DecodeOp::BoundsCheck { packet, wanted: (total / 8) as usize };
    if c.len() == 1 {
        seq![check, read_op(total, e, binding_spec(c[0].field))]
    } else {
        seq![check, read_op(total, e, Binding::Chunk)] + Seq::new(
            c.len(),
            |i: int| shift_mask_op(c[i], total),
        )
    }
}

/// Bytes of one element of an integer array; none for structured elements.
pub open spec fn element_bytes(element: ArrayElement) -> Option<usize> {
    match element {
        ArrayElement::Scalar { width } => Some(width / 8),
        ArrayElement::Enum { width } => Some(width / 8),
        ArrayElement::Structured { .. } => None,
    }
}

/// The operations that decode an array, typedef or payload field: an array
/// whose extent a size or count field gives is preceded by a bounds check on
/// that extent.
pub open spec fn whole_field_ops(f: Field, packet: String, e: Endianness) -> Seq<DecodeOp> {
    match f {
        Field::Array { id, element, extent } => {
            let read = DecodeOp::ReadArray { id, element, extent, endianness: e };
            match extent {
                ArrayExtent::Sized => seq![DecodeOp::CheckSize { packet, field_id: id }, read],
                ArrayExtent::Counted => match element_bytes(element) {
                    Some(n) => seq![
                        DecodeOp::CheckCount { packet, field_id: id, element_bytes: n },
                        read,
                    ],
                    None => seq![read],
                },
                ArrayExtent::Remaining => seq![read],
            }
        },
        Field::Typedef { id, type_id, .. } => seq![DecodeOp::DelegateRead { id, type_id }],
        Field::Payload { children, dispatch } => seq![DecodeOp::ReadPayload { children, dispatch }],
        _ => seq![],
    }
}

/// The error for an array, typedef or payload field of packet `packet` that
/// arrives when the open chunk is `shift` bits wide; `None` when it is accepted.
pub open spec fn decode_field_error(f: Field, packet: String, shift: nat) -> Option<SchemaError> {
    match f {
        Field::Array { id, .. } => if shift != 0 {
            Some(SchemaError::Unaligned { packet, field: id })
        } else {
            None
        },
        Field::Typedef { id, derived, .. } => if shift != 0 {
            Some(SchemaError::Unaligned { packet, field: id })
        } else if derived {
            Some(SchemaError::DerivedTypedef { packet, field: id })
        } else {
            None
        },
        Field::Payload { .. } => if shift != 0 {
            Some(SchemaError::UnalignedPayload { packet })
        } else {
            None
        },
        _ => None,
    }
}

pub proof fn lemma_chunk_width_prefix(c: Seq<BitField>, i: int)
    requires
        0 <= i <= c.len(),
    ensures
        chunk_width(c.subrange(0, i)) <= chunk_width(c),
    decreases c.len(),
{
    if i < c.len() {
        lemma_chunk_width_prefix(c.drop_last(), i);
        assert(c.drop_last().subrange(0, i) =~= c.subrange(0, i));
    } else {
        assert(c.subrange(0, i) =~= c);
    }
}

/// Widths of the fields of a chunk.
pub open spec fn chunk_widths(c: Seq<BitField>) -> Seq<usize> {
    c.map_values(|b: BitField| bit_width(b.field) as usize)
}

proof fn lemma_widths_total(c: Seq<BitField>)
    ensures
        total_width(chunk_widths(c)) == chunk_width(c),
    decreases c.len(),
{
    if c.len() > 0 {
        assert(chunk_widths(c).drop_last() =~= chunk_widths(c.drop_last()));
        lemma_widths_total(c.drop_last());
    }
}

/// The extraction that the decoder emits for field `i` of a closed chunk
/// shifts by exactly the number of bits below that field in the packed chunk
/// and keeps exactly its width, so on the integer read back it yields the
/// field's packed value (`field_value`).
pub proof fn lemma_extraction_matches_packing(c: Seq<BitField>, i: int)
    requires
        chunk_layout(c),
        chunk_width(c) <= 64,
        0 <= i < c.len(),
    ensures
        shift_mask_op(c[i], chunk_width(c)) matches DecodeOp::ShiftMask { shift, width, .. }
            && shift == bits_below(chunk_widths(c), i) && width == chunk_widths(c)[i],
{
    let ws = chunk_widths(c);
    let n = c.len() as int;
    lemma_widths_total(c);
    lemma_total_split(ws, i + 1);
    assert(ws.subrange(0, i + 1) =~= chunk_widths(c.subrange(0, i + 1)));
    lemma_widths_total(c.subrange(0, i + 1));
    assert(c.subrange(0, i + 1).drop_last() =~= c.subrange(0, i));
    assert(chunk_width(c.subrange(0, i + 1)) == c[i].start + bit_width(c[i].field));
    assert(bits_below(ws, i) == chunk_width(c) - c[i].start - bit_width(c[i].field));
    assert(ws[i] == bit_width(c[i].field) as usize);
}

fn binding_of(f: &Field) -> (r: Binding)
    ensures
        r == binding_spec(*f),
{
    match f {
        Field::Scalar { id, .. } => Binding::Value { id: id.clone() },
        Field::EnumScalar { id, .. } => Binding::Value { id: id.clone() },
        Field::Size { field_id, .. } => Binding::SizeOf { field_id: field_id.clone() },
        Field::Count { field_id, .. } => Binding::CountOf { field_id: field_id.clone() },
        Field::FixedScalar { value, .. } => Binding::Expect { value: *value },
        Field::FixedEnum { value, .. } => Binding::Expect { value: *value },
        _ => Binding::Discard,
    }
}

fn shift_mask(b: &BitField, total: usize) -> (r: DecodeOp)
    requires
        1 <= bit_width(b.field) <= 64,
        b.start + bit_width(b.field) <= total <= 64,
    ensures
        r == shift_mask_op(*b, total as nat),
{
    let w = b.field.width();
    let storage = storage_width(w);
    let narrow_to = if storage < storage_width(total) {
        Some(storage)
    } else {
        None
    };
    DecodeOp::ShiftMask {
        binding: binding_of(&b.field),
        shift: total - b.start - w,
        width: w,
        masked: b.start > 0 && w < storage,
        narrow_to,
    }
}

/// Builds the decode operations of one packet, one field at a time.
pub struct FieldParser {
    endianness: Endianness,
    packet_name: String,
    chunk: Vec<BitField>,
    code: Vec<DecodeOp>,
    shift: usize,
    offset: usize,
}

impl FieldParser {
    /// Byte order of the packet.
    pub closed spec fn endianness_spec(&self) -> Endianness {
        self.endianness
    }

    /// Name of the packet.
    pub closed spec fn packet_spec(&self) -> String {
        self.packet_name
    }

    /// Fields of the open chunk.
    pub closed spec fn chunk_spec(&self) -> Seq<BitField> {
        self.chunk@
    }

    /// Operations emitted so far.
    pub closed spec fn code_spec(&self) -> Seq<DecodeOp> {
        self.code@
    }

    /// Bits accumulated in the open chunk.
    pub closed spec fn shift_spec(&self) -> nat {
        self.shift as nat
    }

    /// Bytes taken by the closed chunks.
    pub closed spec fn offset_spec(&self) -> nat {
        self.offset as nat
    }

    /// The open chunk holds consecutive fields whose widths add up to
    /// `shift`, and it is empty whenever `shift` is on a byte boundary.
    pub closed spec fn wf(&self) -> bool {
        &&& chunk_layout(self.chunk@)
        &&& self.shift == chunk_width(self.chunk@)
        &&& self.shift < 64
        &&& (self.shift % 8 == 0 <==> self.chunk@.len() == 0)
    }

    /// A decoder for the packet `packet_name` in byte order `endianness`.
    pub fn new(endianness: Endianness, packet_name: String) -> (r: FieldParser)
        ensures
            r.wf(),
            r.endianness_spec() == endianness,
            r.packet_spec() == packet_name,
            r.chunk_spec().len() == 0,
            r.code_spec().len() == 0,
            r.shift_spec() == 0,
            r.offset_spec() == 0,
    {
        FieldParser {
            endianness,
            packet_name,
            chunk: Vec::new(),
            code: Vec::new(),
            shift: 0,
            offset: 0,
        }
    }

    /// Byte order in which an integer of `width` bits is read; a single byte
    /// has none.
    fn endianness_suffix(&self, width: usize) -> (r: Option<Endianness>)
        ensures
            r == (if width > 8 {
                Some(self.endianness)
            } else {
                None::<Endianness>
            }),
    {
        if width > 8 {
            Some(self.endianness)
        } else {
            None
        }
    }

    /// The read of an unsigned integer of `width` bits.
    fn get_uint(&self, width: usize, binding: Binding) -> (r: DecodeOp)
        requires
            width <= 64,
        ensures
            r == read_op(width as nat, self.endianness, binding),
    {
        DecodeOp::ReadInteger {
            width,
            storage: storage_width(width),
            endianness: self.endianness_suffix(width),
            binding,
        }
    }

    /// Adds the next field of the packet. A bit-packable field joins the open
    /// chunk, and the chunk's operations are emitted once it reaches a byte
    /// boundary; any other field must start on a byte boundary.
    pub fn add(&mut self, field: Field) -> (r: Result<(), SchemaError>)
        requires
            old(self).wf(),
            old(self).offset_spec() + 8 <= usize::MAX,
        ensures
            final(self).wf(),
            final(self).endianness_spec() == old(self).endianness_spec(),
            final(self).packet_spec() == old(self).packet_spec(),
            r is Err ==> *final(self) == *old(self),
            is_bitfield(field) && bit_width(field) == 0 ==> r is Ok && *final(self) == *old(self),
            is_bitfield(field) && r is Ok ==> final(self).offset_spec() * 8
                + final(self).shift_spec() == old(self).offset_spec() * 8 + old(self).shift_spec()
                + bit_width(field),
            is_bitfield(field) ==> (r is Err <==> bit_width(field) > 64 || old(
                self,
            ).shift_spec() + bit_width(field) > 64),
            is_bitfield(field) && bit_width(field) > 64 ==> r == Err::<(), SchemaError>(
                (SchemaError::InvalidWidth {
                    packet: old(self).packet_spec(),
                    field: field_name(field),
                    width: bit_width(field) as usize,
                }),
            ),
            is_bitfield(field) && bit_width(field) <= 64 && old(self).shift_spec()
                + bit_width(field) > 64 ==> r == Err::<(), SchemaError>(
                (SchemaError::ChunkTooWide {
                    packet: old(self).packet_spec(),
                    field: field_name(field),
                    width: (old(self).shift_spec() + bit_width(field)) as usize,
                }),
            ),
            is_bitfield(field) && bit_width(field) >= 1 && r is Ok ==> {
                let total = old(self).shift_spec() + bit_width(field);
                let c = old(self).chunk_spec().push(
                    BitField { start: old(self).shift_spec() as usize, field },
                );
                if total % 8 != 0 {
                    &&& final(self).chunk_spec() == c
                    &&& final(self).shift_spec() == total
                    &&& final(self).code_spec() == old(self).code_spec()
                    &&& final(self).offset_spec() == old(self).offset_spec()
                } else {
                    &&& chunk_layout(c)
                    &&& chunk_width(c) == total
                    &&& total >= 8
                    &&& final(self).chunk_spec().len() == 0
                    &&& final(self).shift_spec() == 0
                    &&& final(self).code_spec() == old(self).code_spec() + chunk_decode_ops(
                        old(self).packet_spec(),
                        old(self).endianness_spec(),
                        c,
                        total,
                    )
                    &&& final(self).offset_spec() == old(self).offset_spec() + total / 8
                }
            },
            !is_bitfield(field) ==> (r is Ok <==> decode_field_error(
                field,
                old(self).packet_spec(),
                old(self).shift_spec(),
            ) is None),
            !is_bitfield(field) ==> (r matches Err(e) ==> decode_field_error(
                field,
                old(self).packet_spec(),
                old(self).shift_spec(),
            ) == Some(e)),
            !is_bitfield(field) && r is Ok ==> {
                &&& final(self).code_spec() == old(self).code_spec() + whole_field_ops(
                    field,
                    old(self).packet_spec(),
                    old(self).endianness_spec(),
                )
                &&& final(self).chunk_spec() == old(self).chunk_spec()
                &&& final(self).shift_spec() == old(self).shift_spec()
                &&& final(self).offset_spec() == old(self).offset_spec()
            },
    {
        if field.is_bitfield() {
            return self.add_bit_field(field);
        }
        if self.shift != 0 {
            let packet = self.packet_name.clone();
            return match field {
                Field::Array { id, .. } => Err(SchemaError::Unaligned { packet, field: id }),
                Field::Typedef { id, .. } => Err(SchemaError::Unaligned { packet, field: id }),
                _ => Err(SchemaError::UnalignedPayload { packet }),
            };
        }
        match field {
            Field::Array { id, element, extent } => {
                match extent {
                    ArrayExtent::Sized => {
                        self.code.push(
                            DecodeOp::CheckSize {
                                packet: self.packet_name.clone(),
                                field_id: id.clone(),
                            },
                        );
                    },
                    ArrayExtent::Counted => {
                        let n = match &element {
                            ArrayElement::Scalar { width } => Some(*width / 8),
                            ArrayElement::Enum { width } => Some(*width / 8),
                            ArrayElement::Structured { .. } => None,
                        };
                        match n {
                            Some(n) => {
                                self.code.push(
                                    DecodeOp::CheckCount {
                                        packet: self.packet_name.clone(),
                                        field_id: id.clone(),
                                        element_bytes: n,
                                    },
                                );
                            },
                            None => {},
                        }
                    },
                    ArrayExtent::Remaining => {},
                }
                self.code.push(
                    DecodeOp::ReadArray { id, element, extent, endianness: self.endianness },
                );
            },
            Field::Typedef { id, type_id, derived } => {
                if derived {
                    return Err(
                        SchemaError::DerivedTypedef { packet: self.packet_name.clone(), field: id },
                    );
                }
                self.code.push(DecodeOp::DelegateRead { id, type_id });
            },
            Field::Payload { children, dispatch } => {
                self.code.push(DecodeOp::ReadPayload { children, dispatch });
            },
            _ => {
                proof {
                    assert(false);
                }
            },
        }
        proof {
            assert(self.code@ =~= old(self).code@ + whole_field_ops(
                field,
                self.packet_name,
                self.endianness,
            ));
        }
        Ok(())
    }

    fn add_bit_field(&mut self, field: Field) -> (r: Result<(), SchemaError>)
        requires
            old(self).wf(),
            old(self).offset_spec() + 8 <= usize::MAX,
            is_bitfield(field),
        ensures
            final(self).wf(),
            final(self).endianness_spec() == old(self).endianness_spec(),
            final(self).packet_spec() == old(self).packet_spec(),
            r is Err ==> *final(self) == *old(self),
            r is Err <==> bit_width(field) > 64 || old(self).shift_spec() + bit_width(
                field,
            ) > 64,
            bit_width(field) > 64 ==> r == Err::<(), SchemaError>(
                (SchemaError::InvalidWidth {
                    packet: old(self).packet_spec(),
                    field: field_name(field),
                    width: bit_width(field) as usize,
                }),
            ),
            bit_width(field) <= 64 && old(self).shift_spec() + bit_width(field) > 64 ==> r == Err::<(), SchemaError>(
                (SchemaError::ChunkTooWide {
                    packet: old(self).packet_spec(),
                    field: field_name(field),
                    width: (old(self).shift_spec() + bit_width(field)) as usize,
                }),
            ),
            bit_width(field) == 0 ==> r is Ok && *final(self) == *old(self),
            r is Ok ==> final(self).offset_spec() * 8 + final(self).shift_spec() == old(self).offset_spec() * 8
                + old(self).shift_spec() + bit_width(field),
            bit_width(field) >= 1 && r is Ok ==> {
                let total = old(self).shift_spec() + bit_width(field);
                let c = old(self).chunk_spec().push(
                    BitField { start: old(self).shift_spec() as usize, field },
                );
                if total % 8 != 0 {
                    &&& final(self).chunk_spec() == c
                    &&& final(self).shift_spec() == total
                    &&& final(self).code_spec() == old(self).code_spec()
                    &&& final(self).offset_spec() == old(self).offset_spec()
                } else {
                    &&& chunk_layout(c)
                    &&& chunk_width(c) == total
                    &&& total >= 8
                    &&& final(self).chunk_spec().len() == 0
                    &&& final(self).shift_spec() == 0
                    &&& final(self).code_spec() == old(self).code_spec() + chunk_decode_ops(
                        old(self).packet_spec(),
                        old(self).endianness_spec(),
                        c,
                        total,
                    )
                    &&& final(self).offset_spec() == old(self).offset_spec() + total / 8
                }
            },
    {
        let w = field.width();
        if w > 64 {
            return Err(
                SchemaError::InvalidWidth {
                    packet: self.packet_name.clone(),
                    field: field.name(),
                    width: w,
                },
            );
        }
        if w == 0 {
            return Ok(());
        }
        if self.shift + w > 64 {
            return Err(
                SchemaError::ChunkTooWide {
                    packet: self.packet_name.clone(),
                    field: field.name(),
                    width: self.shift + w,
                },
            );
        }
        let ghost old_chunk = self.chunk@;
        let start = self.shift;
        self.chunk.push(BitField { start, field });
        self.shift = self.shift + w;
        proof {
            let c = self.chunk@;
            assert(c.drop_last() =~= old_chunk);
            assert forall|i: int| 0 <= i < c.len() implies {
                &&& is_bitfield(#[trigger] c[i].field)
                &&& 1 <= bit_width(c[i].field) <= 64
                &&& c[i].start == chunk_width(c.subrange(0, i))
            } by {
                if i < c.len() - 1 {
                    assert(c.subrange(0, i) =~= old_chunk.subrange(0, i));
                    assert(old_chunk[i] == c[i]);
                } else {
                    assert(c.subrange(0, i) =~= old_chunk);
                }
            }
        }
        if self.shift % 8 != 0 {
            return Ok(());
        }
        self.close_chunk();
        Ok(())
    }

    /// Emits the operations of the open chunk, which has reached a byte
    /// boundary, and starts a new one.
    fn close_chunk(&mut self)
        requires
            chunk_layout(old(self).chunk@),
            old(self).shift == chunk_width(old(self).chunk@),
            old(self).shift <= 64,
            old(self).shift % 8 == 0,
            old(self).chunk@.len() >= 1,
            old(self).offset + 8 <= usize::MAX,
        ensures
            final(self).wf(),
            final(self).endianness == old(self).endianness,
            final(self).packet_name == old(self).packet_name,
            final(self).chunk@.len() == 0,
            final(self).shift == 0,
            final(self).offset == old(self).offset + old(self).shift / 8,
            final(self).code@ == old(self).code@ + chunk_decode_ops(
                old(self).packet_name,
                old(self).endianness,
                old(self).chunk@,
                old(self).shift as nat,
            ),
    {
        let total = self.shift;
        let size = total / 8;
        let ghost base = self.code@;
        let ghost c = self.chunk@;
        let ghost name = self.packet_name;
        let ghost e = self.endianness;
        let ghost off = self.offset;
        self.code.push(DecodeOp::BoundsCheck { packet: self.packet_name.clone(), wanted: size });
        let n = self.chunk.len();
        if n == 1 {
            let b = binding_of(&self.chunk[0].field);
            let op = self.get_uint(total, b);
            self.code.push(op);
            proof {
                assert(self.code@ =~= base + chunk_decode_ops(
                    self.packet_name,
                    self.endianness,
                    c,
                    total as nat,
                ));
            }
        } else {
            let op = self.get_uint(total, Binding::Chunk);
            self.code.push(op);
            let mut i: usize = 0;
            while i < n
                invariant
                    n == self.chunk@.len(),
                    self.chunk@ == c,
                    self.packet_name == name,
                    self.endianness == e,
                    self.offset == off,
                    off + 8 <= usize::MAX,
                    chunk_layout(c),
                    total == chunk_width(c),
                    total <= 64,
                    i <= n,
                    self.code@ == base + seq![
                        DecodeOp::BoundsCheck { packet: self.packet_name, wanted: size },
                        read_op(total as nat, self.endianness, Binding::Chunk),
                    ] + Seq::new(i as nat, |j: int| shift_mask_op(c[j], total as nat)),
                decreases n - i,
            {
                proof {
                    lemma_chunk_width_prefix(c, i + 1);
                    assert(c.subrange(0, i + 1).drop_last() =~= c.subrange(0, i as int));
                    assert(c.subrange(0, i + 1).last() == c[i as int]);
                }
                let op = shift_mask(&self.chunk[i], total);
                let ghost before = self.code@;
                self.code.push(op);
                proof {
                    assert(self.code@ =~= base + seq![
                        DecodeOp::BoundsCheck { packet: self.packet_name, wanted: size },
                        read_op(total as nat, self.endianness, Binding::Chunk),
                    ] + Seq::new((i + 1) as nat, |j: int| shift_mask_op(c[j], total as nat)));
                }
                i = i + 1;
            }
            proof {
                assert(self.code@ =~= base + chunk_decode_ops(
                    self.packet_name,
                    self.endianness,
                    c,
                    total as nat,
                ));
            }
        }
        self.chunk = Vec::new();
        self.offset = self.offset + size;
        self.shift = 0;
    }

    /// Finishes the packet and hands back its decode operations; fails when
    /// fields are left that do not fill a whole byte. Since each successful
    /// `add` grows `8 * offset + shift` by exactly the field's width, on
    /// success the chunks read `offset` bytes: the widths of all bit-packable
    /// fields added, divided by eight.
    pub fn done(self) -> (r: Result<Vec<DecodeOp>, SchemaError>)
        requires
            self.wf(),
        ensures
            r is Ok <==> self.shift_spec() == 0,
            r matches Ok(code) ==> code@ == self.code_spec(),
            r matches Err(e) ==> e == (SchemaError::OpenChunk {
                packet: self.packet_spec(),
                shift: self.shift_spec() as usize,
            }),
    {
        if self.shift != 0 {
            return Err(SchemaError::OpenChunk { packet: self.packet_name, shift: self.shift });
        }
        Ok(self.code)
    }
}

} // verus!
