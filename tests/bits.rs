use pdl_bits::chunk::{check_remaining, decode_chunk, encode_chunk, pack_chunk, unpack_field, DecodeError, EncodeError};
use pdl_bits::width::{get_uint, mask_bits, put_uint, storage_width, Endianness};

#[test]
fn storage_width_ladder() {
    assert_eq!(storage_width(0), 8);
    assert_eq!(storage_width(1), 8);
    assert_eq!(storage_width(8), 8);
    assert_eq!(storage_width(9), 16);
    assert_eq!(storage_width(24), 24);
    assert_eq!(storage_width(25), 32);
    assert_eq!(storage_width(63), 64);
    assert_eq!(storage_width(64), 64);
}

#[test]
fn mask_values() {
    assert_eq!(mask_bits(1), 1);
    assert_eq!(mask_bits(3), 7);
    assert_eq!(mask_bits(12), 0xfff);
    assert_eq!(mask_bits(63), 0x7fff_ffff_ffff_ffff);
    assert_eq!(mask_bits(64), u64::MAX);
}

#[test]
fn three_fields_big_endian() {
    let values = vec![5u64, 17, 200];
    let widths = vec![3usize, 5, 8];
    assert_eq!(pack_chunk(&values, &widths), 0xB1C8);
    let mut out = Vec::new();
    assert_eq!(encode_chunk(&mut out, &values, &widths, Endianness::Big), Ok(()));
    assert_eq!(out, vec![0xB1, 0xC8]);
    assert_eq!(decode_chunk(&out, 0, &widths, Endianness::Big), Ok(vec![5, 17, 200]));
}

#[test]
fn scalar_24_bit_little_endian() {
    let mut out = Vec::new();
    assert_eq!(encode_chunk(&mut out, &vec![0x010203], &vec![24], Endianness::Little), Ok(()));
    assert_eq!(out, vec![0x03, 0x02, 0x01]);
    assert_eq!(decode_chunk(&out, 0, &vec![24], Endianness::Little), Ok(vec![0x010203]));
}

#[test]
fn write_then_read_every_width_and_order() {
    for nbytes in 1..=8usize {
        for e in [Endianness::Big, Endianness::Little] {
            let top = if nbytes == 8 { u64::MAX } else { (1u64 << (8 * nbytes)) - 1 };
            for v in [0u64, 1, 0x5a, top / 3, top] {
                let mut out = vec![0xEE];
                put_uint(&mut out, v, nbytes, e);
                assert_eq!(out.len(), 1 + nbytes);
                assert_eq!(get_uint(&out, 1, nbytes, e), v);
            }
        }
    }
}

#[test]
fn byte_orders_differ() {
    let mut be = Vec::new();
    let mut le = Vec::new();
    put_uint(&mut be, 0x0102, 2, Endianness::Big);
    put_uint(&mut le, 0x0102, 2, Endianness::Little);
    assert_eq!(be, vec![0x01, 0x02]);
    assert_eq!(le, vec![0x02, 0x01]);
    let mut one = Vec::new();
    put_uint(&mut one, 0xAB, 1, Endianness::Little);
    assert_eq!(one, vec![0xAB]);
}

#[test]
fn range_enforced_per_width() {
    let mut out = vec![1u8];
    let r = encode_chunk(&mut out, &vec![8, 0], &vec![3, 5], Endianness::Big);
    assert_eq!(r, Err(EncodeError::ValueTooLarge { index: 0, value: 8, max: 7 }));
    assert_eq!(out, vec![1u8]);
    let r = encode_chunk(&mut out, &vec![7, 32], &vec![3, 5], Endianness::Big);
    assert_eq!(r, Err(EncodeError::ValueTooLarge { index: 1, value: 32, max: 31 }));
    let r = encode_chunk(&mut out, &vec![1 << 63], &vec![63, 1], Endianness::Big);
    assert_eq!(r, Err(EncodeError::ValueTooLarge { index: 0, value: 1 << 63, max: (1 << 63) - 1 }));
    assert_eq!(out, vec![1u8]);
}

#[test]
fn full_64_bit_range_accepted() {
    let mut out = Vec::new();
    assert_eq!(encode_chunk(&mut out, &vec![u64::MAX], &vec![64], Endianness::Little), Ok(()));
    assert_eq!(out, vec![0xFF; 8]);
    assert_eq!(decode_chunk(&out, 0, &vec![64], Endianness::Little), Ok(vec![u64::MAX]));
}

#[test]
fn neighbours_unchanged_by_one_field() {
    let widths = vec![4usize, 1, 11];
    let mut a = Vec::new();
    let mut b = Vec::new();
    encode_chunk(&mut a, &vec![9, 1, 1000], &widths, Endianness::Little).unwrap();
    encode_chunk(&mut b, &vec![9, 0, 1000], &widths, Endianness::Little).unwrap();
    let da = decode_chunk(&a, 0, &widths, Endianness::Little).unwrap();
    let db = decode_chunk(&b, 0, &widths, Endianness::Little).unwrap();
    assert_eq!(da, vec![9, 1, 1000]);
    assert_eq!(db, vec![9, 0, 1000]);
    assert_eq!(da[0], db[0]);
    assert_eq!(da[2], db[2]);
}

#[test]
fn unpack_fields_of_chunk() {
    let widths = vec![3usize, 5, 8];
    assert_eq!(unpack_field(0xB1C8, &widths, 0), 5);
    assert_eq!(unpack_field(0xB1C8, &widths, 1), 17);
    assert_eq!(unpack_field(0xB1C8, &widths, 2), 200);
}

#[test]
fn decode_needs_enough_bytes() {
    let bytes = vec![0xAA, 0xBB, 0xCC];
    assert_eq!(
        decode_chunk(&bytes, 2, &vec![8, 8], Endianness::Big),
        Err(DecodeError::InsufficientInput { wanted: 2, got: 1 })
    );
    assert_eq!(decode_chunk(&bytes, 1, &vec![8, 8], Endianness::Big), Ok(vec![0xBB, 0xCC]));
    assert_eq!(check_remaining(&bytes, 0, 3), Ok(()));
    assert_eq!(check_remaining(&bytes, 0, 4), Err(DecodeError::InsufficientInput { wanted: 4, got: 3 }));
}
