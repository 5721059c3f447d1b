use pdl_bits::field::{ArrayElement, ArrayExtent, Field, SchemaError, Sibling, SizeExpr};
use pdl_bits::parser::{Binding, DecodeOp, FieldParser};
use pdl_bits::serializer::{EncodeOp, FieldSerializer, ValueExpr};
use pdl_bits::width::Endianness;

fn scalar(id: &str, width: usize) -> Field {
    Field::Scalar { id: id.to_string(), width }
}

#[test]
fn parser_three_field_chunk() {
    // 3 + 5 bits reach a byte boundary: one chunk of two fields, then one of a single field.
    let mut p = FieldParser::new(Endianness::Big, "Foo".to_string());
    p.add(scalar("a", 3)).unwrap();
    p.add(scalar("b", 5)).unwrap();
    p.add(scalar("c", 8)).unwrap();
    let ops = p.done().unwrap();
    assert_eq!(ops.len(), 6);
    assert!(matches!(&ops[0], DecodeOp::BoundsCheck { packet, wanted: 1 } if packet == "Foo"));
    assert!(matches!(&ops[1], DecodeOp::ReadInteger { width: 8, storage: 8, endianness: None, binding: Binding::Chunk }));
    match &ops[2] {
        DecodeOp::ShiftMask { binding, shift, width, masked, narrow_to } => {
            assert_eq!(*binding, Binding::Value { id: "a".to_string() });
            assert_eq!((*shift, *width, *masked, *narrow_to), (5, 3, false, None));
        }
        other => panic!("unexpected {:?}", other),
    }
    match &ops[3] {
        DecodeOp::ShiftMask { binding, shift, width, masked, narrow_to } => {
            assert_eq!(*binding, Binding::Value { id: "b".to_string() });
            assert_eq!((*shift, *width, *masked, *narrow_to), (0, 5, true, None));
        }
        other => panic!("unexpected {:?}", other),
    }
    assert!(matches!(&ops[4], DecodeOp::BoundsCheck { wanted: 1, .. }));
    match &ops[5] {
        DecodeOp::ReadInteger { width, storage, endianness, binding } => {
            assert_eq!((*width, *storage, *endianness), (8, 8, None));
            assert_eq!(*binding, Binding::Value { id: "c".to_string() });
        }
        other => panic!("unexpected {:?}", other),
    }
}

#[test]
fn parser_sixteen_bit_chunk() {
    let mut p = FieldParser::new(Endianness::Big, "Foo".to_string());
    p.add(scalar("a", 4)).unwrap();
    p.add(Field::Count { field_id: "xs".to_string(), width: 12 }).unwrap();
    let ops = p.done().unwrap();
    assert_eq!(ops.len(), 4);
    assert!(matches!(&ops[0], DecodeOp::BoundsCheck { wanted: 2, .. }));
    match &ops[1] {
        DecodeOp::ReadInteger { width, storage, endianness, binding } => {
            assert_eq!((*width, *storage, *endianness), (16, 16, Some(Endianness::Big)));
            assert_eq!(*binding, Binding::Chunk);
        }
        other => panic!("unexpected {:?}", other),
    }
    match &ops[2] {
        DecodeOp::ShiftMask { binding, shift, width, masked, narrow_to } => {
            assert_eq!(*binding, Binding::Value { id: "a".to_string() });
            assert_eq!((*shift, *width, *masked, *narrow_to), (12, 4, false, Some(8)));
        }
        other => panic!("unexpected {:?}", other),
    }
    match &ops[3] {
        DecodeOp::ShiftMask { binding, shift, width, masked, narrow_to } => {
            assert_eq!(*binding, Binding::CountOf { field_id: "xs".to_string() });
            assert_eq!((*shift, *width, *masked, *narrow_to), (0, 12, true, None));
        }
        other => panic!("unexpected {:?}", other),
    }
}

#[test]
fn parser_single_field_reads_directly() {
    let mut p = FieldParser::new(Endianness::Little, "Bar".to_string());
    p.add(scalar("x", 24)).unwrap();
    let ops = p.done().unwrap();
    assert_eq!(ops.len(), 2);
    match &ops[1] {
        DecodeOp::ReadInteger { width, storage, endianness, binding } => {
            assert_eq!((*width, *storage, *endianness), (24, 24, Some(Endianness::Little)));
            assert_eq!(*binding, Binding::Value { id: "x".to_string() });
        }
        other => panic!("unexpected {:?}", other),
    }
}

#[test]
fn parser_rejects_open_chunk_and_misalignment() {
    let mut p = FieldParser::new(Endianness::Big, "P".to_string());
    p.add(Field::Reserved { width: 4 }).unwrap();
    match p.add(Field::Array { id: "arr".to_string(), element: ArrayElement::Scalar { width: 8 }, extent: ArrayExtent::Remaining }) {
        Err(SchemaError::Unaligned { packet, field }) => {
            assert_eq!(packet, "P");
            assert_eq!(field, "arr");
        }
        other => panic!("unexpected {:?}", other),
    }
    match p.add(Field::Payload { children: vec![], dispatch: false }) {
        Err(SchemaError::UnalignedPayload { packet }) => assert_eq!(packet, "P"),
        other => panic!("unexpected {:?}", other),
    }
    match p.done() {
        Err(SchemaError::OpenChunk { packet, shift }) => {
            assert_eq!(packet, "P");
            assert_eq!(shift, 4);
        }
        other => panic!("unexpected {:?}", other),
    }
}

#[test]
fn parser_rejects_bad_widths() {
    let mut p = FieldParser::new(Endianness::Big, "W".to_string());
    match p.add(scalar("z", 65)) {
        Err(SchemaError::InvalidWidth { packet, field, width }) => {
            assert_eq!((packet.as_str(), field, width), ("W", Some("z".to_string()), 65))
        }
        other => panic!("unexpected {:?}", other),
    }
    p.add(scalar("a", 4)).unwrap();
    match p.add(scalar("b", 64)) {
        Err(SchemaError::ChunkTooWide { field, width, .. }) => assert_eq!((field, width), (Some("b".to_string()), 68)),
        other => panic!("unexpected {:?}", other),
    }
    p.add(scalar("c", 4)).unwrap();
    assert_eq!(p.done().unwrap().len(), 4);
}

#[test]
fn parser_whole_fields() {
    let mut p = FieldParser::new(Endianness::Big, "T".to_string());
    p.add(Field::Typedef { id: "t".to_string(), type_id: "S".to_string(), derived: false }).unwrap();
    match p.add(Field::Typedef { id: "u".to_string(), type_id: "D".to_string(), derived: true }) {
        Err(SchemaError::DerivedTypedef { field, .. }) => assert_eq!(field, "u"),
        other => panic!("unexpected {:?}", other),
    }
    p.add(Field::Payload { children: vec!["A".to_string(), "B".to_string()], dispatch: true }).unwrap();
    let ops = p.done().unwrap();
    assert_eq!(ops.len(), 2);
    assert!(matches!(&ops[0], DecodeOp::DelegateRead { id, type_id } if id == "t" && type_id == "S"));
    assert!(matches!(&ops[1], DecodeOp::ReadPayload { children, dispatch: true } if children.len() == 2));
}

#[test]
fn serializer_three_field_chunk() {
    let mut s = FieldSerializer::new(Endianness::Big, "Foo".to_string());
    s.add(scalar("a", 3)).unwrap();
    s.add(scalar("b", 5)).unwrap();
    s.add(scalar("c", 8)).unwrap();
    let ops = s.done().unwrap();
    // range checks of a and b, two combines and a write for the first byte,
    // one direct write for c
    assert_eq!(ops.len(), 6);
    match &ops[0] {
        EncodeOp::RangeCheck { packet, field, max, .. } => {
            assert_eq!((packet.as_str(), field.as_str(), *max), ("Foo", "a", 7));
        }
        other => panic!("unexpected {:?}", other),
    }
    match &ops[1] {
        EncodeOp::RangeCheck { field, max, .. } => assert_eq!((field.as_str(), *max), ("b", 31)),
        other => panic!("unexpected {:?}", other),
    }
    let shifts = [5usize, 0];
    for k in 0..2 {
        match &ops[2 + k] {
            EncodeOp::OrValue { value } => {
                assert_eq!(value.shift, shifts[k]);
                assert_eq!(value.cast_to, None);
            }
            other => panic!("unexpected {:?}", other),
        }
    }
    assert!(matches!(&ops[4], EncodeOp::WriteChunk { width: 8, endianness: None }));
    match &ops[5] {
        EncodeOp::WriteInteger { width: 8, endianness: None, value } => {
            assert_eq!((value.shift, value.cast_to), (0, None));
            assert!(matches!(&value.value, ValueExpr::Field { id } if id == "c"));
        }
        other => panic!("unexpected {:?}", other),
    }
}

#[test]
fn serializer_sixteen_bit_chunk() {
    let mut s = FieldSerializer::new(Endianness::Little, "Foo".to_string());
    s.add(scalar("a", 4)).unwrap();
    s.add(scalar("b", 12)).unwrap();
    let ops = s.done().unwrap();
    assert_eq!(ops.len(), 5);
    let expected = [(12usize, Some(16usize)), (0, None)];
    for k in 0..2 {
        match &ops[2 + k] {
            EncodeOp::OrValue { value } => assert_eq!((value.shift, value.cast_to), expected[k]),
            other => panic!("unexpected {:?}", other),
        }
    }
    assert!(matches!(&ops[4], EncodeOp::WriteChunk { width: 16, endianness: Some(Endianness::Little) }));
}

#[test]
fn serializer_fixed_enum_tag_in_camel_case() {
    let mut s = FieldSerializer::new(Endianness::Little, "E".to_string());
    s.add(Field::FixedEnum {
        width: 8,
        enum_id: "Color".to_string(),
        tag_id: "light_blue".to_string(),
        value: 3,
    })
    .unwrap();
    let ops = s.done().unwrap();
    assert_eq!(ops.len(), 1);
    match &ops[0] {
        EncodeOp::WriteInteger { width, endianness, value } => {
            assert_eq!((*width, *endianness), (8, None));
            match &value.value {
                ValueExpr::EnumTag { enum_id, tag, value } => {
                    assert_eq!(enum_id, "Color");
                    assert_eq!(tag, "LightBlue");
                    assert_eq!(*value, 3);
                }
                other => panic!("unexpected {:?}", other),
            }
        }
        other => panic!("unexpected {:?}", other),
    }
}

#[test]
fn serializer_size_and_count_and_reserved() {
    let mut s = FieldSerializer::new(Endianness::Big, "S".to_string());
    s.add(Field::Size {
        field_id: "items".to_string(),
        width: 8,
        sibling: Sibling::Array { element: ArrayElement::Scalar { width: 16 } },
    })
    .unwrap();
    s.add(Field::Count { field_id: "things".to_string(), width: 8 }).unwrap();
    s.add(Field::Reserved { width: 16 }).unwrap();
    s.add(Field::Array { id: "items".to_string(), element: ArrayElement::Scalar { width: 16 }, extent: ArrayExtent::Sized }).unwrap();
    let ops = s.done().unwrap();
    assert_eq!(ops.len(), 6);
    match &ops[0] {
        EncodeOp::RangeCheck { field, value, max, .. } => {
            assert_eq!((field.as_str(), *max), ("items", 255));
            assert!(matches!(value, ValueExpr::DerivedSize { size: SizeExpr::ElementCount { byte_width: 2 }, .. }));
        }
        other => panic!("unexpected {:?}", other),
    }
    assert!(matches!(&ops[1], EncodeOp::WriteInteger { width: 8, .. }));
    match &ops[2] {
        EncodeOp::RangeCheck { packet, field, value, max } => {
            assert_eq!((packet.as_str(), field.as_str(), *max), ("S", "things", 255));
            assert!(matches!(value, ValueExpr::Count { field_id } if field_id == "things"));
        }
        other => panic!("unexpected {:?}", other),
    }
    assert!(matches!(&ops[3], EncodeOp::WriteInteger { value, .. } if matches!(value.value, ValueExpr::Count { .. })));
    assert!(matches!(&ops[4], EncodeOp::WriteZeroRun { count: 2 }));
    assert!(matches!(&ops[5], EncodeOp::WriteArray { id, endianness: Endianness::Big, .. } if id == "items"));
}

#[test]
fn serializer_payload_alignment() {
    let mut big = FieldSerializer::new(Endianness::Big, "B".to_string());
    big.add(Field::Reserved { width: 4 }).unwrap();
    match big.add(Field::Payload { children: vec![], dispatch: false }) {
        Err(SchemaError::UnalignedPayload { packet }) => assert_eq!(packet, "B"),
        other => panic!("unexpected {:?}", other),
    }
    let mut little = FieldSerializer::new(Endianness::Little, "L".to_string());
    little.add(Field::Reserved { width: 4 }).unwrap();
    match little.add(Field::Payload { children: vec![], dispatch: false }) {
        Err(SchemaError::UnsupportedShiftedPayload { packet }) => assert_eq!(packet, "L"),
        other => panic!("unexpected {:?}", other),
    }
    let mut ok = FieldSerializer::new(Endianness::Big, "K".to_string());
    ok.add(Field::Payload { children: vec!["A".to_string(), "B".to_string()], dispatch: true }).unwrap();
    ok.add(Field::Typedef { id: "t".to_string(), type_id: "S".to_string(), derived: false }).unwrap();
    let ops = ok.done().unwrap();
    assert!(matches!(&ops[0], EncodeOp::DispatchWrite { packet, children } if packet == "K" && children.len() == 2));
    assert!(matches!(&ops[1], EncodeOp::DelegateWrite { id } if id == "t"));
}

#[test]
fn serializer_rejects_derived_typedef_and_open_chunk() {
    let mut s = FieldSerializer::new(Endianness::Big, "D".to_string());
    match s.add(Field::Typedef { id: "t".to_string(), type_id: "X".to_string(), derived: true }) {
        Err(SchemaError::DerivedTypedef { packet, field }) => assert_eq!((packet.as_str(), field.as_str()), ("D", "t")),
        other => panic!("unexpected {:?}", other),
    }
    s.add(Field::FixedScalar { width: 3, value: 5 }).unwrap();
    match s.done() {
        Err(SchemaError::OpenChunk { shift, .. }) => assert_eq!(shift, 3),
        other => panic!("unexpected {:?}", other),
    }
}

#[test]
fn zero_width_fields_emit_nothing() {
    let mut p = FieldParser::new(Endianness::Big, "Z".to_string());
    p.add(Field::Reserved { width: 0 }).unwrap();
    p.add(scalar("a", 4)).unwrap();
    p.add(scalar("nothing", 0)).unwrap();
    p.add(scalar("b", 4)).unwrap();
    let ops = p.done().unwrap();
    assert_eq!(ops.len(), 4);
    let mut s = FieldSerializer::new(Endianness::Big, "Z".to_string());
    s.add(Field::Reserved { width: 0 }).unwrap();
    s.add(Field::FixedScalar { width: 0, value: 0 }).unwrap();
    assert_eq!(s.done().unwrap().len(), 0);
}

#[test]
fn serializer_rejects_bad_widths() {
    let mut s = FieldSerializer::new(Endianness::Big, "W".to_string());
    match s.add(Field::Reserved { width: 70 }) {
        Err(SchemaError::InvalidWidth { field, width, .. }) => assert_eq!((field, width), (None, 70)),
        other => panic!("unexpected {:?}", other),
    }
    s.add(scalar("a", 60)).unwrap();
    match s.add(scalar("b", 8)) {
        Err(SchemaError::ChunkTooWide { packet, field, width }) => {
            assert_eq!((packet.as_str(), field, width), ("W", Some("b".to_string()), 68))
        }
        other => panic!("unexpected {:?}", other),
    }
    s.add(scalar("c", 4)).unwrap();
    let ops = s.done().unwrap();
    assert!(matches!(&ops[ops.len() - 1], EncodeOp::WriteChunk { width: 64, endianness: Some(Endianness::Big) }));
}

#[test]
fn serializer_count_checked_at_every_width() {
    for width in [3usize, 8, 16, 24, 56] {
        let mut s = FieldSerializer::new(Endianness::Little, "C".to_string());
        s.add(Field::Count { field_id: "xs".to_string(), width }).unwrap();
        if width % 8 != 0 {
            s.add(Field::Reserved { width: 8 - width % 8 }).unwrap();
        }
        let ops = s.done().unwrap();
        let expected_max = (1u64 << width) - 1;
        assert!(matches!(&ops[0], EncodeOp::RangeCheck { field, max, .. } if field == "xs" && *max == expected_max));
    }
}

#[test]
fn serializer_misaligned_typedef_and_array() {
    let mut s = FieldSerializer::new(Endianness::Big, "M".to_string());
    s.add(Field::Reserved { width: 2 }).unwrap();
    match s.add(Field::Typedef { id: "t".to_string(), type_id: "S".to_string(), derived: false }) {
        Err(SchemaError::Unaligned { packet, field }) => assert_eq!((packet.as_str(), field.as_str()), ("M", "t")),
        other => panic!("unexpected {:?}", other),
    }
    match s.add(Field::Array { id: "a".to_string(), element: ArrayElement::Enum { width: 8 }, extent: ArrayExtent::Remaining }) {
        Err(SchemaError::Unaligned { packet, field }) => assert_eq!((packet.as_str(), field.as_str()), ("M", "a")),
        other => panic!("unexpected {:?}", other),
    }
}

#[test]
fn parser_sized_array_checks_its_size() {
    let mut p = FieldParser::new(Endianness::Big, "P".to_string());
    p.add(Field::Size {
        field_id: "arr".to_string(),
        width: 8,
        sibling: Sibling::Array { element: ArrayElement::Scalar { width: 16 } },
    })
    .unwrap();
    p.add(Field::Array { id: "arr".to_string(), element: ArrayElement::Scalar { width: 16 }, extent: ArrayExtent::Sized })
        .unwrap();
    let ops = p.done().unwrap();
    assert_eq!(ops.len(), 4);
    match &ops[1] {
        DecodeOp::ReadInteger { binding, .. } => assert_eq!(*binding, Binding::SizeOf { field_id: "arr".to_string() }),
        other => panic!("unexpected {:?}", other),
    }
    assert!(matches!(&ops[2], DecodeOp::CheckSize { packet, field_id } if packet == "P" && field_id == "arr"));
    assert!(matches!(&ops[3], DecodeOp::ReadArray { id, extent: ArrayExtent::Sized, .. } if id == "arr"));
}

#[test]
fn parser_misaligned_typedef_named() {
    let mut p = FieldParser::new(Endianness::Little, "Q".to_string());
    p.add(Field::FixedScalar { width: 4, value: 1 }).unwrap();
    match p.add(Field::Typedef { id: "t".to_string(), type_id: "S".to_string(), derived: true }) {
        Err(SchemaError::Unaligned { packet, field }) => assert_eq!((packet.as_str(), field.as_str()), ("Q", "t")),
        other => panic!("unexpected {:?}", other),
    }
}
