//! The closed set of field kinds a packet declaration is made of, the
//! sibling kinds a size field can refer to, and the size decision table.
use vstd::prelude::*;

verus! {

/// Element type of an array field.
#[derive(Clone, Debug, PartialEq, Eq)]
pub enum ArrayElement {
    /// Unsigned integers of a fixed bit width.
    Scalar { width: usize },
    /// Values of an enum declared with a fixed bit width.
    Enum { width: usize },
    /// Values of a structured type with its own write routine.
    Structured { type_id: String },
}

/// A schema that cannot be laid out.
#[derive(Debug)]
pub enum SchemaError {
    /// A bit-packable field wider than 64 bits.
    InvalidWidth { packet: String, field: Option<String>, width: usize },
    /// A chunk that would grow past 64 bits before reaching a byte boundary.
    ChunkTooWide { packet: String, field: Option<String>, width: usize },
    /// An array or typedef field that does not start on a byte boundary.
    Unaligned { packet: String, field: String },
    /// A payload that does not start on a byte boundary.
    UnalignedPayload { packet: String },
    /// A payload that does not start on a byte boundary of a little-endian
    /// packet, for which no packing is defined.
    UnsupportedShiftedPayload { packet: String },
    /// A typedef field referring to a type derived from another.
    DerivedTypedef { packet: String, field: String },
    /// Fields left over that do not fill a whole byte.
    OpenChunk { packet: String, shift: usize },
}

/// What gives the extent of an array when it is decoded.
#[derive(Clone, Copy, Debug, PartialEq, Eq, Structural)]
pub enum ArrayExtent {
    /// The array takes the rest of the input.
    Remaining,
    /// A size field of the packet gives its byte length.
    Sized,
    /// A count field of the packet gives its number of elements.
    Counted,
}

/// The field that a size field measures.
#[derive(Clone, Debug, PartialEq, Eq)]
pub enum Sibling {
    /// The payload or body; `typed` when the packet dispatches to child packets.
    Payload { typed: bool },
    /// An array field.
    Array { element: ArrayElement },
}

/// How the value of a size field is computed at encode time.
#[derive(Clone, Copy, Debug, PartialEq, Eq, Structural)]
pub enum SizeExpr {
    /// The total serialized size of the bound child packet.
    ChildTotalSize,
    /// The byte count of a raw payload.
    PayloadLength,
    /// The element count times a fixed element byte width.
    ElementCount { byte_width: usize },
    /// The sum of the serialized sizes of every element.
    ElementSizeSum,
}

/// One declared element of a packet.
#[derive(Clone, Debug, PartialEq, Eq)]
pub enum Field {
    Scalar { id: String, width: usize },
    FixedScalar { width: usize, value: u64 },
    FixedEnum { width: usize, enum_id: String, tag_id: String, value: u64 },
    /// A scalar whose type is an enum declaration.
    EnumScalar { id: String, type_id: String, width: usize },
    Reserved { width: usize },
    Size { field_id: String, width: usize, sibling: Sibling },
    Count { field_id: String, width: usize },
    /// An array, whose extent is given as `extent` says.
    Array { id: String, element: ArrayElement, extent: ArrayExtent },
    /// A field of a structured type; `derived` when that type has a parent.
    Typedef { id: String, type_id: String, derived: bool },
    /// The variable-length tail: with `dispatch`, a choice among the declared
    /// `children` (or raw bytes, or nothing); without, raw bytes.
    Payload { children: Vec<String>, dispatch: bool },
}

/// Whether a field is packed into a bit chunk.
pub open spec fn is_bitfield(f: Field) -> bool {
    match f {
        Field::Array { .. } | Field::Typedef { .. } | Field::Payload { .. } => false,
        _ => true,
    }
}

/// Declared bit width of a bit-packable field.
pub open spec fn bit_width(f: Field) -> nat {
    match f {
        Field::Scalar { width, .. } => width as nat,
        Field::FixedScalar { width, .. } => width as nat,
        Field::FixedEnum { width, .. } => width as nat,
        Field::EnumScalar { width, .. } => width as nat,
        Field::Reserved { width } => width as nat,
        Field::Size { width, .. } => width as nat,
        Field::Count { width, .. } => width as nat,
        _ => 0,
    }
}

/// Name of a field, absent for fixed and reserved fields.
pub open spec fn field_name(f: Field) -> Option<String> {
    match f {
        Field::Scalar { id, .. } => Some(id),
        Field::EnumScalar { id, .. } => Some(id),
        Field::Size { field_id, .. } => Some(field_id),
        Field::Count { field_id, .. } => Some(field_id),
        Field::Array { id, .. } => Some(id),
        Field::Typedef { id, .. } => Some(id),
        _ => None,
    }
}

impl Field {
    /// Whether the field is packed into a bit chunk.
    pub fn is_bitfield(&self) -> (r: bool)
        ensures
            r == is_bitfield(*self),
    {
        match self {
            Field::Array { .. } | Field::Typedef { .. } | Field::Payload { .. } => false,
            _ => true,
        }
    }

    /// Name of the field, absent for fixed and reserved fields.
    pub fn name(&self) -> (r: Option<String>)
        ensures
            r == field_name(*self),
    {
        match self {
            Field::Scalar { id, .. } => Some(id.clone()),
            Field::EnumScalar { id, .. } => Some(id.clone()),
            Field::Size { field_id, .. } => Some(field_id.clone()),
            Field::Count { field_id, .. } => Some(field_id.clone()),
            Field::Array { id, .. } => Some(id.clone()),
            Field::Typedef { id, .. } => Some(id.clone()),
            _ => None,
        }
    }

    /// Declared bit width of a bit-packable field, zero for the others.
    pub fn width(&self) -> (r: usize)
        ensures
            r == bit_width(*self),
    {
        match self {
            Field::Scalar { width, .. } => *width,
            Field::FixedScalar { width, .. } => *width,
            Field::FixedEnum { width, .. } => *width,
            Field::EnumScalar { width, .. } => *width,
            Field::Reserved { width } => *width,
            Field::Size { width, .. } => *width,
            Field::Count { width, .. } => *width,
            _ => 0,
        }
    }
}

/// The size decision table.
pub open spec fn size_expr_spec(s: Sibling) -> SizeExpr {
    match s {
        Sibling::Payload { typed } => if typed {
            SizeExpr::ChildTotalSize
        } else {
            SizeExpr::PayloadLength
        },
        Sibling::Array { element } => match element {
            ArrayElement::Scalar { width } => SizeExpr::ElementCount { byte_width: width / 8 },
            ArrayElement::Enum { width } => SizeExpr::ElementCount { byte_width: width / 8 },
            ArrayElement::Structured { .. } => SizeExpr::ElementSizeSum,
        },
    }
}

/// How a size field referring to `s` derives its value.
pub fn size_expr(s: &Sibling) -> (r: SizeExpr)
    ensures
        r == size_expr_spec(*s),
{
    match s {
        Sibling::Payload { typed } => if *typed {
            SizeExpr::ChildTotalSize
        } else {
            SizeExpr::PayloadLength
        },
        Sibling::Array { element } => match element {
            ArrayElement::Scalar { width } => SizeExpr::ElementCount { byte_width: *width / 8 },
            ArrayElement::Enum { width } => SizeExpr::ElementCount { byte_width: *width / 8 },
            ArrayElement::Structured { .. } => SizeExpr::ElementSizeSum,
        },
    }
}

/// Sum of a sequence of sizes.
pub open spec fn sum_sizes(s: Seq<usize>) -> nat
    decreases s.len(),
{
    if s.len() == 0 {
        0
    } else {
        sum_sizes(s.drop_last()) + s.last() as nat
    }
}

/// Value of a size field: `parts` holds the serialized size of each element
/// of the sibling array, or the one byte length of the sibling payload.
pub open spec fn size_value(expr: SizeExpr, parts: Seq<usize>) -> nat {
    match expr {
        SizeExpr::ElementCount { byte_width } => parts.len() * (byte_width as nat),
        _ => sum_sizes(parts),
    }
}

/// Computes the value of a size field, or `None` when it exceeds `u64`.
pub fn derived_size(expr: SizeExpr, parts: &Vec<usize>) -> (r: Option<u64>)
    ensures
        r is Some <==> size_value(expr, parts@) <= u64::MAX,
        r matches Some(v) ==> v as nat == size_value(expr, parts@),
{
    match expr {
        SizeExpr::ElementCount { byte_width } => {
            let count = parts.len() as u64;
            count.checked_mul(byte_width as u64)
        },
        SizeExpr::ChildTotalSize | SizeExpr::PayloadLength | SizeExpr::ElementSizeSum => {
            let mut acc: u64 = 0;
            let mut i: usize = 0;
            while i < parts.len()
                invariant
                    i <= parts.len(),
                    !(expr is ElementCount),
                    acc as nat == sum_sizes(parts@.subrange(0, i as int)),
                decreases parts.len() - i,
            {
                proof {
                    assert(parts@.subrange(0, i + 1).drop_last() =~= parts@.subrange(0, i as int));
                    lemma_sum_prefix(parts@, i + 1);
                    assert(sum_sizes(parts@.subrange(0, i + 1)) == acc + parts@[i as int]);
                }
                let next = acc.checked_add(parts[i] as u64);
                match next {
                    Some(v) => {
                        acc = v;
                    },
                    None => {
                        return None;
                    },
                }
                i = i + 1;
            }
            proof {
                assert(parts@.subrange(0, parts.len() as int) =~= parts@);
            }
            Some(acc)
        },
    }
}

proof fn lemma_sum_prefix(s: Seq<usize>, k: int)
    requires
        0 <= k <= s.len(),
    ensures
        sum_sizes(s.subrange(0, k)) <= sum_sizes(s),
    decreases s.len(),
{
    if k < s.len() {
        lemma_sum_prefix(s.drop_last(), k);
        assert(s.drop_last().subrange(0, k) =~= s.subrange(0, k));
    } else {
        assert(s.subrange(0, k) =~= s);
    }
}

} // verus!
