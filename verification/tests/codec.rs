use sstable::Error;
use sstable::handle::Handle;
use sstable::footer::Footer;
use sstable::varint::{decode_var_u32, decode_var_u64, encode_var_u64};

#[test]
fn varint_u64_round_trip_values() {
    let values: Vec<u64> = vec![0, 1, 127, 128, 129, 300, 16383, 16384, 78122425, u64::MAX];
    for &x in &values {
        let enc = encode_var_u64(x);
        let (v, consumed) = decode_var_u64(&enc, 0).unwrap();
        assert_eq!(v, x);
        assert_eq!(consumed, enc.len());
    }
}

#[test]
fn varint_canonical_lengths() {
    assert_eq!(encode_var_u64(0).len(), 1);
    assert_eq!(encode_var_u64(127).len(), 1);
    assert_eq!(encode_var_u64(128).len(), 2);
    assert_eq!(encode_var_u64(16383).len(), 2);
    assert_eq!(encode_var_u64(16384).len(), 3);
    assert_eq!(encode_var_u64(u64::MAX).len(), 10);
}

#[test]
fn varint_u32_decode_two_bytes() {
    // 150 = 0b1001_0110: low seven bits 0b0010110 with continuation, then 1.
    let bytes: Vec<u8> = vec![0x96, 0x01];
    let (v, consumed) = decode_var_u32(&bytes, 0).unwrap();
    assert_eq!(v, 150);
    assert_eq!(consumed, 2);
}

#[test]
fn varint_decode_at_offset() {
    let bytes: Vec<u8> = vec![0xFF, 0x2A, 0x07];
    let (v, consumed) = decode_var_u32(&bytes, 1).unwrap();
    assert_eq!(v, 42);
    assert_eq!(consumed, 2);
}

#[test]
fn varint_truncated_input() {
    let bytes: Vec<u8> = vec![0x80, 0x80];
    assert_eq!(decode_var_u64(&bytes, 0), Err(Error::TruncatedInput));
    assert_eq!(decode_var_u32(&bytes, 0), Err(Error::TruncatedInput));
    let empty: Vec<u8> = vec![];
    assert_eq!(decode_var_u64(&empty, 0), Err(Error::TruncatedInput));
}

#[test]
fn varint_non_minimal_accepted() {
    // A zero spelled in two bytes is not canonical but still decodes.
    let bytes: Vec<u8> = vec![0x80, 0x00];
    assert_eq!(decode_var_u64(&bytes, 0), Ok((0, 2)));
}

#[test]
fn varint_malformed_u32_too_long() {
    let bytes: Vec<u8> = vec![0x80, 0x80, 0x80, 0x80, 0x80, 0x01];
    assert_eq!(decode_var_u32(&bytes, 0), Err(Error::MalformedVarint));
}

#[test]
fn varint_malformed_u32_overflow() {
    // The fifth byte may only carry four payload bits.
    let bytes: Vec<u8> = vec![0x80, 0x80, 0x80, 0x80, 0x7F];
    assert_eq!(decode_var_u32(&bytes, 0), Err(Error::MalformedVarint));
    let ok: Vec<u8> = vec![0xFF, 0xFF, 0xFF, 0xFF, 0x0F];
    assert_eq!(decode_var_u32(&ok, 0), Ok((u32::MAX, 5)));
}

#[test]
fn varint_malformed_u64_overflow() {
    // The tenth byte may only carry one payload bit.
    let bytes: Vec<u8> = vec![0xFF, 0xFF, 0xFF, 0xFF, 0xFF, 0xFF, 0xFF, 0xFF, 0xFF, 0x02];
    assert_eq!(decode_var_u64(&bytes, 0), Err(Error::MalformedVarint));
    let too_long: Vec<u8> = vec![0x80; 11];
    assert_eq!(decode_var_u64(&too_long, 0), Err(Error::MalformedVarint));
    let ok: Vec<u8> = vec![0xFF, 0xFF, 0xFF, 0xFF, 0xFF, 0xFF, 0xFF, 0xFF, 0xFF, 0x01];
    assert_eq!(decode_var_u64(&ok, 0), Ok((u64::MAX, 10)));
}

#[test]
fn handle_round_trip() {
    let h = Handle { offset: 78122425, size: 4139 };
    let enc = h.encode();
    let (back, consumed) = Handle::decode(&enc, 0).unwrap();
    assert_eq!(back, h);
    assert_eq!(consumed, enc.len());
}

#[test]
fn footer_round_trip() {
    let f = Footer {
        meta_index: Handle { offset: 1000, size: 200 },
        index: Handle { offset: 1205, size: 4096 },
    };
    let enc = f.encode();
    assert_eq!(enc.len(), sstable::FOOTER_ENCODE_LENGTH);
    assert_eq!(Footer::decode(&enc), Ok(f));
}

#[test]
fn footer_round_trip_extreme_handles() {
    let f = Footer {
        meta_index: Handle { offset: u64::MAX, size: u64::MAX },
        index: Handle { offset: 0, size: 0 },
    };
    let enc = f.encode();
    assert_eq!(enc.len(), sstable::FOOTER_ENCODE_LENGTH);
    assert_eq!(Footer::decode(&enc), Ok(f));
}

#[test]
fn footer_bad_magic() {
    let f = Footer {
        meta_index: Handle { offset: 10, size: 20 },
        index: Handle { offset: 30, size: 40 },
    };
    let mut enc = f.encode();
    let last = enc.len() - 1;
    enc[last] ^= 0xFF;
    assert_eq!(Footer::decode(&enc), Err(Error::BadMagic));
    let mut enc2 = f.encode();
    enc2[40] = 0x00;
    assert_eq!(Footer::decode(&enc2), Err(Error::BadMagic));
}

#[test]
fn footer_garbage_handles_still_bad_magic_first() {
    // All continuation bits and no magic: the magic check decides.
    let buf: Vec<u8> = vec![0x80; sstable::FOOTER_ENCODE_LENGTH];
    assert_eq!(Footer::decode(&buf), Err(Error::BadMagic));
}
