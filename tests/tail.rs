use pdl_bits::chunk::{encode_chunk, DecodeError, EncodeError};
use pdl_bits::field::{derived_size, size_expr, ArrayElement, Sibling, SizeExpr};
use pdl_bits::runtime::{decode_array, encode_array, write_payload, write_raw, ChildData};
use pdl_bits::width::Endianness;

#[test]
fn size_table() {
    assert_eq!(size_expr(&Sibling::Payload { typed: true }), SizeExpr::ChildTotalSize);
    assert_eq!(size_expr(&Sibling::Payload { typed: false }), SizeExpr::PayloadLength);
    assert_eq!(
        size_expr(&Sibling::Array { element: ArrayElement::Scalar { width: 16 } }),
        SizeExpr::ElementCount { byte_width: 2 }
    );
    assert_eq!(
        size_expr(&Sibling::Array { element: ArrayElement::Enum { width: 24 } }),
        SizeExpr::ElementCount { byte_width: 3 }
    );
    assert_eq!(
        size_expr(&Sibling::Array { element: ArrayElement::Structured { type_id: "Elem".to_string() } }),
        SizeExpr::ElementSizeSum
    );
}

#[test]
fn derived_size_values() {
    assert_eq!(derived_size(SizeExpr::ElementCount { byte_width: 2 }, &vec![2, 2, 2]), Some(6));
    assert_eq!(derived_size(SizeExpr::ElementSizeSum, &vec![3, 4, 5]), Some(12));
    assert_eq!(derived_size(SizeExpr::PayloadLength, &vec![17]), Some(17));
    assert_eq!(derived_size(SizeExpr::ChildTotalSize, &vec![]), Some(0));
    assert_eq!(derived_size(SizeExpr::ElementCount { byte_width: usize::MAX }, &vec![1, 1]), None);
}

#[test]
fn size_field_before_array() {
    let elems = vec![0x0102u64, 0x0304, 0x0506];
    let size = derived_size(SizeExpr::ElementCount { byte_width: 2 }, &vec![2, 2, 2]).unwrap();
    let mut out = Vec::new();
    encode_chunk(&mut out, &vec![size], &vec![8], Endianness::Big).unwrap();
    encode_array(&mut out, &elems, 2, Endianness::Big).unwrap();
    assert_eq!(out, vec![6, 1, 2, 3, 4, 5, 6]);
    assert_eq!(decode_array(&out, 1, 6, 2, Endianness::Big), Ok(elems));

    let short = vec![6u8, 1, 2, 3, 4];
    assert_eq!(
        decode_array(&short, 1, 6, 2, Endianness::Big),
        Err(DecodeError::InsufficientInput { wanted: 6, got: 4 })
    );
    assert_eq!(
        decode_array(&out, 1, 5, 2, Endianness::Big),
        Err(DecodeError::InvalidArraySize { size: 5, element: 2 })
    );
}

#[test]
fn size_too_large_for_field() {
    let mut out = Vec::new();
    assert_eq!(
        encode_chunk(&mut out, &vec![256], &vec![8], Endianness::Big),
        Err(EncodeError::ValueTooLarge { index: 0, value: 256, max: 255 })
    );
}

#[test]
fn array_element_out_of_range() {
    let mut out = vec![9u8];
    assert_eq!(
        encode_array(&mut out, &vec![1, 0x10000, 2], 2, Endianness::Little),
        Err(EncodeError::ValueTooLarge { index: 1, value: 0x10000, max: 0xffff })
    );
    assert_eq!(out, vec![9u8]);
    encode_array(&mut out, &vec![0x0102], 2, Endianness::Little).unwrap();
    assert_eq!(out, vec![9, 2, 1]);
}

#[test]
fn payload_child_and_raw() {
    let mut a = Vec::new();
    write_payload(&mut a, &ChildData::Child { id: "A".to_string(), bytes: vec![0x11, 0x22, 0x33] });
    assert_eq!(a, vec![0x11, 0x22, 0x33]);
    let mut raw = Vec::new();
    write_payload(&mut raw, &ChildData::Payload { bytes: vec![0xDE, 0xAD] });
    assert_eq!(raw, vec![0xDE, 0xAD]);
    let mut none = vec![1u8];
    write_payload(&mut none, &ChildData::Empty);
    assert_eq!(none, vec![1u8]);
    let mut out = vec![7u8];
    write_raw(&mut out, &vec![8, 9]);
    assert_eq!(out, vec![7, 8, 9]);
}
