use pdl_bits::field::{ArrayElement, ArrayExtent, Field, Sibling};
use pdl_bits::parser::{Binding, FieldParser};
use pdl_bits::semantics::{run_decode, run_encode, DecodeFailure, Decoded, EncodeEnv, EncodeFailure};
use pdl_bits::serializer::FieldSerializer;
use pdl_bits::width::Endianness;

fn env() -> EncodeEnv {
    EncodeEnv {
        values: vec![],
        codes: vec![],
        sizes: vec![],
        counts: vec![],
        arrays: vec![],
        subs: vec![],
        payload: vec![],
    }
}

fn scalar(id: &str, width: usize) -> Field {
    Field::Scalar { id: id.to_string(), width }
}

fn value_of(ds: &[Decoded], id: &str) -> u64 {
    for d in ds {
        if let Decoded::Value { binding: Binding::Value { id: name }, value } = d {
            if name == id {
                return *value;
            }
        }
    }
    panic!("{} not bound", id)
}

fn three_field_ops(e: Endianness) -> (FieldSerializer, FieldParser) {
    let mut s = FieldSerializer::new(e, "P".to_string());
    let mut p = FieldParser::new(e, "P".to_string());
    for (id, w) in [("a", 3usize), ("b", 5), ("c", 8)] {
        s.add(scalar(id, w)).unwrap();
        p.add(scalar(id, w)).unwrap();
    }
    (s, p)
}

#[test]
fn engines_encode_three_fields_big_endian() {
    let (s, p) = three_field_ops(Endianness::Big);
    let mut v = env();
    v.values = vec![("a".to_string(), 5), ("b".to_string(), 17), ("c".to_string(), 200)];
    let bytes = run_encode(&s.done().unwrap(), &v).unwrap();
    assert_eq!(bytes, vec![0xB1, 0xC8]);
    let (used, ds) = run_decode(&p.done().unwrap(), &bytes).unwrap();
    assert_eq!(used, 2);
    assert_eq!((value_of(&ds, "a"), value_of(&ds, "b"), value_of(&ds, "c")), (5, 17, 200));
}

#[test]
fn engines_range_check_fails_before_write() {
    let (s, _) = three_field_ops(Endianness::Big);
    let mut v = env();
    v.values = vec![("a".to_string(), 8), ("b".to_string(), 17), ("c".to_string(), 200)];
    assert_eq!(
        run_encode(&s.done().unwrap(), &v),
        Err(EncodeFailure::OutOfRange { packet: "P".to_string(), field: "a".to_string(), value: 8, max: 7 })
    );
}

#[test]
fn engines_scalar_24_bit_little_endian() {
    let mut s = FieldSerializer::new(Endianness::Little, "P".to_string());
    let mut p = FieldParser::new(Endianness::Little, "P".to_string());
    s.add(scalar("x", 24)).unwrap();
    p.add(scalar("x", 24)).unwrap();
    let mut v = env();
    v.values = vec![("x".to_string(), 0x010203)];
    let bytes = run_encode(&s.done().unwrap(), &v).unwrap();
    assert_eq!(bytes, vec![0x03, 0x02, 0x01]);
    let (used, ds) = run_decode(&p.done().unwrap(), &bytes).unwrap();
    assert_eq!(used, 3);
    assert_eq!(value_of(&ds, "x"), 0x010203);
}

fn sized_array_fields() -> Vec<Field> {
    vec![
        Field::Size {
            field_id: "arr".to_string(),
            width: 8,
            sibling: Sibling::Array { element: ArrayElement::Scalar { width: 16 } },
        },
        Field::Array { id: "arr".to_string(), element: ArrayElement::Scalar { width: 16 }, extent: ArrayExtent::Sized },
    ]
}

#[test]
fn engines_size_field_before_array() {
    let mut s = FieldSerializer::new(Endianness::Big, "P".to_string());
    let mut p = FieldParser::new(Endianness::Big, "P".to_string());
    for f in sized_array_fields() {
        s.add(f).unwrap();
    }
    for f in sized_array_fields() {
        p.add(f).unwrap();
    }
    let mut v = env();
    v.sizes = vec![("arr".to_string(), 6)];
    v.arrays = vec![("arr".to_string(), vec![0x0102, 0x0304, 0x0506])];
    let bytes = run_encode(&s.done().unwrap(), &v).unwrap();
    assert_eq!(bytes, vec![6, 1, 2, 3, 4, 5, 6]);
    let ops = p.done().unwrap();
    let (used, ds) = run_decode(&ops, &bytes).unwrap();
    assert_eq!(used, 7);
    assert!(matches!(&ds[1], Decoded::Array { id, values } if id == "arr" && *values == vec![0x0102, 0x0304, 0x0506]));
    assert_eq!(
        run_decode(&ops, &[0x06, 0, 0, 0, 0]).unwrap_err(),
        DecodeFailure::InsufficientInput { packet: "P".to_string(), wanted: 6, got: 4 }
    );
}

#[test]
fn engines_payload_child_and_raw() {
    let mut s = FieldSerializer::new(Endianness::Big, "P".to_string());
    s.add(Field::Payload { children: vec!["A".to_string(), "B".to_string()], dispatch: true }).unwrap();
    let ops = s.done().unwrap();
    let mut child = env();
    child.payload = vec![0x11, 0x22];
    assert_eq!(run_encode(&ops, &child).unwrap(), vec![0x11, 0x22]);
    let mut raw = env();
    raw.payload = vec![0xDE, 0xAD];
    assert_eq!(run_encode(&ops, &raw).unwrap(), vec![0xDE, 0xAD]);
}

#[test]
fn engines_reserved_bits_zero_and_enum_conversion() {
    let mut s = FieldSerializer::new(Endianness::Big, "P".to_string());
    s.add(scalar("a", 4)).unwrap();
    s.add(Field::Reserved { width: 4 }).unwrap();
    s.add(Field::EnumScalar { id: "k".to_string(), type_id: "Kind".to_string(), width: 8 }).unwrap();
    let ops = s.done().unwrap();
    let mut v = env();
    v.values = vec![("a".to_string(), 0xF)];
    v.codes = vec![("k".to_string(), 3)];
    assert_eq!(run_encode(&ops, &v).unwrap(), vec![0xF0, 0x03]);
    v.codes = vec![];
    assert_eq!(run_encode(&ops, &v), Err(EncodeFailure::ConversionFailed { id: "k".to_string() }));
}

fn counted_fields() -> Vec<Field> {
    vec![
        Field::Count { field_id: "xs".to_string(), width: 8 },
        Field::Array { id: "xs".to_string(), element: ArrayElement::Scalar { width: 16 }, extent: ArrayExtent::Counted },
        scalar("tail", 8),
    ]
}

#[test]
fn engines_counted_array_then_field() {
    let mut s = FieldSerializer::new(Endianness::Little, "P".to_string());
    let mut p = FieldParser::new(Endianness::Little, "P".to_string());
    for f in counted_fields() {
        s.add(f).unwrap();
    }
    for f in counted_fields() {
        p.add(f).unwrap();
    }
    let mut v = env();
    v.counts = vec![("xs".to_string(), 2)];
    v.arrays = vec![("xs".to_string(), vec![0x0102, 0x0304])];
    v.values = vec![("tail".to_string(), 0x7F)];
    let bytes = run_encode(&s.done().unwrap(), &v).unwrap();
    assert_eq!(bytes, vec![2, 0x02, 0x01, 0x04, 0x03, 0x7F]);
    let ops = p.done().unwrap();
    let (used, ds) = run_decode(&ops, &bytes).unwrap();
    assert_eq!(used, 6);
    assert!(matches!(&ds[1], Decoded::Array { id, values } if id == "xs" && *values == vec![0x0102, 0x0304]));
    assert_eq!(value_of(&ds, "tail"), 0x7F);
    assert_eq!(
        run_decode(&ops, &[3, 1, 2, 3, 4]).unwrap_err(),
        DecodeFailure::InsufficientInput { packet: "P".to_string(), wanted: 6, got: 4 }
    );
}

#[test]
fn engines_count_out_of_range() {
    let mut s = FieldSerializer::new(Endianness::Big, "P".to_string());
    s.add(Field::Count { field_id: "xs".to_string(), width: 8 }).unwrap();
    let mut v = env();
    v.counts = vec![("xs".to_string(), 256)];
    assert_eq!(
        run_encode(&s.done().unwrap(), &v),
        Err(EncodeFailure::OutOfRange { packet: "P".to_string(), field: "xs".to_string(), value: 256, max: 255 })
    );
}
