use cargosos_node::compact256::Compact256;
use cargosos_node::compact_size::CompactSize;
use cargosos_node::serialization::{
    ErrorSerialization, SerializableBigEndian, SerializableInternalOrder, SerializableLittleEndian,
};

fn le_encode<T: SerializableLittleEndian>(v: &T) -> Vec<u8> {
    let mut out = Vec::new();
    v.le_serialize(&mut out);
    out
}

#[test]
fn compact_size_widths_and_markers() {
    let cases: Vec<(u64, Vec<u8>)> = vec![
        (0, vec![0x00]),
        (252, vec![0xfc]),
        (253, vec![0xfd, 0xfd, 0x00]),
        (65535, vec![0xfd, 0xff, 0xff]),
        (65536, vec![0xfe, 0x00, 0x00, 0x01, 0x00]),
        (4294967295, vec![0xfe, 0xff, 0xff, 0xff, 0xff]),
        (4294967296, vec![0xff, 0x00, 0x00, 0x00, 0x00, 0x01, 0x00, 0x00, 0x00]),
    ];
    for (value, expected) in cases {
        assert_eq!(le_encode(&CompactSize::new(value)), expected);
    }
}

#[test]
fn compact_size_round_trip_at_boundaries() {
    for value in [0u64, 252, 253, 65535, 65536, 4294967295, 4294967296, u64::MAX] {
        let mut bytes = le_encode(&CompactSize::new(value));
        let len = bytes.len();
        bytes.push(0xaa);
        match CompactSize::le_deserialize(&bytes, 0) {
            Ok((c, end)) => {
                assert_eq!(c.value, value);
                assert_eq!(end, len);
            }
            Err(_) => panic!("compact size {} did not decode", value),
        }
    }
}

#[test]
fn compact_size_truncated_fails() {
    for bytes in [vec![], vec![0xfd], vec![0xfd, 0x01], vec![0xfe, 1, 2, 3], vec![0xff, 1, 2, 3, 4, 5, 6, 7]] {
        assert!(CompactSize::le_deserialize(&bytes, 0).is_err());
    }
}

#[test]
fn compact_size_non_canonical_fails() {
    assert!(CompactSize::le_deserialize(&[0xfd, 0x10, 0x00], 0).is_err());
    assert!(CompactSize::le_deserialize(&[0xfe, 0xff, 0xff, 0x00, 0x00], 0).is_err());
    assert!(CompactSize::le_deserialize(&[0xff, 1, 0, 0, 0, 0, 0, 0, 0], 0).is_err());
}

#[test]
fn integers_are_little_endian() {
    assert_eq!(le_encode(&0x01020304u32), vec![4, 3, 2, 1]);
    assert_eq!(le_encode(&0x0102u16), vec![2, 1]);
    assert_eq!(le_encode(&0x0102030405060708u64), vec![8, 7, 6, 5, 4, 3, 2, 1]);
    assert_eq!(le_encode(&-1i32), vec![0xff; 4]);
    assert_eq!(le_encode(&-2i64), vec![0xfe, 0xff, 0xff, 0xff, 0xff, 0xff, 0xff, 0xff]);
    assert_eq!(le_encode(&true), vec![1]);
    assert_eq!(le_encode(&false), vec![0]);
}

#[test]
fn integers_round_trip() {
    for v in [0u32, 1, 0x1234_5678, u32::MAX] {
        assert!(matches!(u32::le_deserialize(&le_encode(&v), 0), Ok((x, 4)) if x == v));
    }
    for v in [0u64, 1, 0x1234_5678_9abc_def0, u64::MAX] {
        assert!(matches!(u64::le_deserialize(&le_encode(&v), 0), Ok((x, 8)) if x == v));
    }
    for v in [i32::MIN, -1, 0, 7, i32::MAX] {
        assert!(matches!(i32::le_deserialize(&le_encode(&v), 0), Ok((x, 4)) if x == v));
    }
    for v in [i64::MIN, -1, 0, 7, i64::MAX] {
        assert!(matches!(i64::le_deserialize(&le_encode(&v), 0), Ok((x, 8)) if x == v));
    }
    for v in [0u16, 0xfd, u16::MAX] {
        assert!(matches!(u16::le_deserialize(&le_encode(&v), 0), Ok((x, 2)) if x == v));
    }
}

#[test]
fn short_reads_fail() {
    assert!(u32::le_deserialize(&[1, 2, 3], 0).is_err());
    assert!(u64::le_deserialize(&[1, 2, 3, 4, 5, 6, 7], 0).is_err());
    assert!(u16::le_deserialize(&[1, 2], 1).is_err());
    assert!(bool::le_deserialize(&[], 0).is_err());
    assert!(matches!(
        u32::le_deserialize(&[1, 2, 3], 5),
        Err(ErrorSerialization::ErrorInDeserialization(_))
    ));
}

#[test]
fn bool_refuses_other_bytes() {
    assert!(bool::le_deserialize(&[2], 0).is_err());
    assert!(matches!(bool::le_deserialize(&[1], 0), Ok((true, 1))));
    assert!(matches!(bool::le_deserialize(&[0], 0), Ok((false, 1))));
}

#[test]
fn hash_byte_orders() {
    let mut h = [0u8; 32];
    for (i, b) in h.iter_mut().enumerate() {
        *b = i as u8;
    }
    let mut be = Vec::new();
    h.be_serialize(&mut be);
    assert_eq!(be, h.to_vec());
    let le = le_encode(&h);
    let mut rev = h.to_vec();
    rev.reverse();
    assert_eq!(le, rev);
    assert!(matches!(<[u8; 32]>::le_deserialize(&le, 0), Ok((x, 32)) if x == h));
    assert!(matches!(<[u8; 32]>::be_deserialize(&be, 0), Ok((x, 32)) if x == h));
    assert!(<[u8; 32]>::le_deserialize(&le[1..], 0).is_err());
}

#[test]
fn compact256_packs_hash() {
    let mut h = [0u8; 32];
    h[4] = 0x09;
    h[5] = 0x33;
    h[6] = 0xea;
    h[7] = 0x01;
    assert_eq!(Compact256::from_hash(&h).bits, 0x1c0933ea);
    assert_eq!(Compact256::from_hash(&[0u8; 32]).bits, 0);
    let mut low = [0u8; 32];
    low[31] = 0x05;
    assert_eq!(Compact256::from_hash(&low).bits, 0x01050000);
}

#[test]
fn compact256_orders_by_value() {
    let target = Compact256::from_bits(0x1d00ffff);
    assert!(target.gt(&Compact256::from_bits(0x1c0933ea)));
    assert!(!Compact256::from_bits(0x1c0933ea).gt(&target));
    assert!(Compact256::from_bits(0x1d010000).gt(&target));
    assert!(target.gt(&Compact256::from_bits(0x1e0000ff)));
    assert!(!target.gt(&Compact256::from_bits(0x1e00ffff)));
    assert!(Compact256::from_bits(0x1e00ffff).gt(&target));
    assert!(!target.gt(&target));
    // 0x03123456 and 0x04001234 differ: 0x123456 against 0x123400.
    assert!(Compact256::from_bits(0x03123456).gt(&Compact256::from_bits(0x04001234)));
    // An exponent below 3 drops bytes: 0x02123456 stands for 0x1234.
    assert!(!Compact256::from_bits(0x02123456).gt(&Compact256::from_bits(0x03001234)));
    assert!(!Compact256::from_bits(0x03001234).gt(&Compact256::from_bits(0x02123456)));
    assert!(!Compact256::from_bits(0x00ffffff).gt(&Compact256::from_bits(0x00000000)));
}

#[test]
fn compact256_round_trip() {
    let c = Compact256::from_bits(0x1d00ffff);
    let bytes = le_encode(&c);
    assert_eq!(bytes, vec![0xff, 0xff, 0x00, 0x1d]);
    assert!(matches!(Compact256::le_deserialize(&bytes, 0), Ok((x, 4)) if x == c));
}

#[test]
fn list_of_bytes_round_trip() {
    let items: Vec<u8> = vec![1, 2, 3];
    let mut out = Vec::new();
    cargosos_node::sequence::write_list(&items, &mut out);
    assert_eq!(out, vec![3, 1, 2, 3]);
    match cargosos_node::sequence::read_list::<u8>(&out, 0) {
        Ok((v, end)) => {
            assert_eq!(v, items);
            assert_eq!(end, 4);
        }
        Err(_) => panic!("list did not decode"),
    }
    assert!(cargosos_node::sequence::read_list::<u8>(&out[..3], 0).is_err());
    let mut io = Vec::new();
    7u8.io_serialize(&mut io);
    assert_eq!(io, vec![7]);
}
