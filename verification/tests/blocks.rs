use sstable::Error;
use sstable::block::{le_u32, Block};
use sstable::checksum::{crc32c_range, mask_crc};
use sstable::footer::Footer;
use sstable::handle::Handle;

/// Lays out one block at offset zero of a fresh file: the raw region
/// (payload, restart offsets, restart count), the compression tag, and the
/// masked checksum over raw region plus tag.
fn block_file(payload: &[u8], restarts: &[u32], count: u32, tag: u8) -> (Vec<u8>, Handle) {
    let mut file: Vec<u8> = payload.to_vec();
    for r in restarts {
        file.extend_from_slice(&r.to_le_bytes());
    }
    file.extend_from_slice(&count.to_le_bytes());
    let raw_len = file.len();
    file.push(tag);
    let crc = mask_crc(crc32c_range(&file, 0, raw_len + 1));
    file.extend_from_slice(&crc.to_le_bytes());
    (file, Handle { offset: 0, size: raw_len as u64 })
}

#[test]
fn crc32c_check_value() {
    let data: Vec<u8> = b"123456789".to_vec();
    assert_eq!(crc32c_range(&data, 0, 9), 0xE3069283);
}

#[test]
fn le_u32_reads_little_endian() {
    let bytes: Vec<u8> = vec![0xEF, 0xBE, 0xAD, 0xDE];
    assert_eq!(le_u32(&bytes, 0), 0xDEADBEEF);
}

#[test]
fn empty_block_yields_no_entries() {
    // Payload empty, restarts = [0], count = 1 at the tail.
    let (file, handle) = block_file(&[], &[0], 1, 0);
    let block = handle.read_block(&file).unwrap();
    assert_eq!(block.data.len(), 0);
    assert_eq!(block.restarts, vec![0u32]);
    let mut it = block.into_iter();
    assert!(matches!(it.next(), Ok(None)));
    assert!(matches!(it.next(), Ok(None)));
    assert_eq!(block.entries().unwrap().len(), 0);
}

#[test]
fn shared_prefix_entries_decode() {
    // ("abc","1") stored in full, then ("abd","2") reusing "ab".
    let payload: Vec<u8> = vec![
        0, 3, 1, b'a', b'b', b'c', b'1', // shared 0, unshared 3, value 1
        2, 1, 1, b'd', b'2', // shared 2, unshared 1, value 1
    ];
    let (file, handle) = block_file(&payload, &[0], 1, 0);
    let block = handle.read_block(&file).unwrap();
    let entries = block.entries().unwrap();
    assert_eq!(entries.len(), 2);
    assert_eq!(entries[0].shared, 0);
    assert_eq!(entries[0].key, b"abc".to_vec());
    assert_eq!(entries[0].value, b"1".to_vec());
    assert_eq!(entries[1].shared, 2);
    assert_eq!(entries[1].key, b"abd".to_vec());
    assert_eq!(entries[1].value, b"2".to_vec());
}

#[test]
fn iteration_is_deterministic() {
    let payload: Vec<u8> = vec![
        0, 3, 1, b'a', b'b', b'c', b'1',
        2, 1, 1, b'd', b'2',
    ];
    let (file, handle) = block_file(&payload, &[0], 1, 0);
    let block = handle.read_block(&file).unwrap();
    let first = block.entries().unwrap();
    let second = block.entries().unwrap();
    assert_eq!(first.len(), second.len());
    for (a, b) in first.iter().zip(second.iter()) {
        assert_eq!(a.shared, b.shared);
        assert_eq!(a.key, b.key);
        assert_eq!(a.value, b.value);
    }
}

#[test]
fn restart_points_carry_full_keys() {
    // Two restart regions: "abc"/"abd" from offset 0, "xy" stored in full
    // at the second restart offset.
    let mut payload: Vec<u8> = vec![
        0, 3, 1, b'a', b'b', b'c', b'1',
        2, 1, 1, b'd', b'2',
    ];
    let second_restart = payload.len() as u32;
    payload.extend_from_slice(&[0, 2, 1, b'x', b'y', b'3']);
    let (file, handle) = block_file(&payload, &[0, second_restart], 2, 0);
    let block = handle.read_block(&file).unwrap();
    let all = block.entries().unwrap();
    assert_eq!(all.len(), 3);
    assert_eq!(all[2].key, b"xy".to_vec());

    // Every entry that starts at a restart offset stores its key in full.
    assert_eq!(all[0].shared, 0);
    assert_eq!(all[2].shared, 0);

    // A fresh iterator at the second restart reproduces the tail.
    let mut it = block.into_iter_at(1).unwrap();
    let e = it.next().unwrap().unwrap();
    assert_eq!(e.shared, 0);
    assert_eq!(e.key, b"xy".to_vec());
    assert_eq!(e.value, b"3".to_vec());
    assert!(matches!(it.next(), Ok(None)));
}

#[test]
fn short_read_on_out_of_range_handle() {
    let (file, _) = block_file(&[], &[0], 1, 0);
    // A handle whose range plus trailer runs past the end of the file.
    let bad = Handle { offset: 0, size: file.len() as u64 };
    assert_eq!(bad.read_block(&file).err(), Some(Error::ShortRead));
    let way_out = Handle { offset: u64::MAX, size: u64::MAX };
    assert_eq!(way_out.read_block(&file).err(), Some(Error::ShortRead));
}

#[test]
fn unsupported_compression_tag() {
    let (file, handle) = block_file(&[], &[0], 1, 2);
    assert_eq!(handle.read_block(&file).err(), Some(Error::UnsupportedCompression(2)));
}

#[test]
fn snappy_tag_is_not_handled_here() {
    let (file, handle) = block_file(&[], &[0], 1, 1);
    assert_eq!(handle.read_block(&file).err(), Some(Error::UnsupportedCompression(1)));
}

#[test]
fn checksum_mismatch_detected() {
    let (mut file, handle) = block_file(&[], &[0], 1, 0);
    let last = file.len() - 1;
    file[last] ^= 0x01;
    assert_eq!(handle.read_block(&file).err(), Some(Error::ChecksumMismatch));
}

#[test]
fn block_checksums_agree_on_good_block() {
    let (file, handle) = block_file(&[1, 2, 3], &[0], 1, 0);
    let (stored, computed) = handle.block_checksums(&file).unwrap();
    assert_eq!(stored, computed);
}

#[test]
fn corrupt_block_too_short() {
    assert_eq!(Block::from(vec![1, 2, 3]).err(), Some(Error::CorruptBlock));
}

#[test]
fn corrupt_block_restart_count_overruns() {
    // Count says two restart offsets, but nothing precedes the count.
    let raw: Vec<u8> = 2u32.to_le_bytes().to_vec();
    assert_eq!(Block::from(raw).err(), Some(Error::CorruptBlock));
}

#[test]
fn corrupt_entry_shared_exceeds_key() {
    // First entry claims five shared bytes while the accumulator is empty.
    let payload: Vec<u8> = vec![5, 0, 0];
    let (file, handle) = block_file(&payload, &[0], 1, 0);
    let block = handle.read_block(&file).unwrap();
    assert_eq!(block.entries().err(), Some(Error::CorruptBlock));
}

#[test]
fn truncated_entry_value_overruns() {
    // Value length five, but only one byte of payload follows.
    let payload: Vec<u8> = vec![0, 1, 5, b'a'];
    let (file, handle) = block_file(&payload, &[0], 1, 0);
    let block = handle.read_block(&file).unwrap();
    assert_eq!(block.entries().err(), Some(Error::TruncatedEntry));
}

#[test]
fn truncated_entry_header_varint() {
    // A lone continuation byte where an entry header should start.
    let payload: Vec<u8> = vec![0x80];
    let (file, handle) = block_file(&payload, &[0], 1, 0);
    let block = handle.read_block(&file).unwrap();
    assert_eq!(block.entries().err(), Some(Error::TruncatedInput));
}

#[test]
fn read_data_copies_exact_range() {
    let file: Vec<u8> = vec![10, 11, 12, 13, 14];
    let h = Handle { offset: 1, size: 3 };
    assert_eq!(h.read_data(&file).unwrap(), vec![11, 12, 13]);
    let bad = Handle { offset: 3, size: 3 };
    assert_eq!(bad.read_data(&file).err(), Some(Error::ShortRead));
}

#[test]
fn index_entries_decode_to_data_handles() {
    // A small table: one data block, an index block whose single entry's
    // value encodes the data block's handle, and a footer naming the index.
    let data_payload: Vec<u8> = vec![
        0, 3, 5, b'k', b'e', b'y', b'v', b'a', b'l', b'u', b'e',
    ];
    let (mut file, data_handle) = block_file(&data_payload, &[0], 1, 0);

    let index_offset = file.len() as u64;
    let handle_enc = data_handle.encode();
    let mut index_payload: Vec<u8> = vec![0, 3, handle_enc.len() as u8, b'k', b'e', b'y'];
    index_payload.extend_from_slice(&handle_enc);
    let (index_file, _) = block_file(&index_payload, &[0], 1, 0);
    let index_size = (index_file.len() - sstable::BLOCK_TRAILER_SIZE) as u64;
    file.extend_from_slice(&index_file);

    let footer = Footer {
        meta_index: Handle { offset: index_offset, size: 0 },
        index: Handle { offset: index_offset, size: index_size },
    };
    file.extend_from_slice(&footer.encode());

    // Decode the footer back off the tail of the file, as a reader would.
    let tail = &file[file.len() - sstable::FOOTER_ENCODE_LENGTH..];
    let decoded = Footer::decode(tail).unwrap();
    assert_eq!(decoded, footer);

    let index_block = decoded.read_index(&file).unwrap();
    let index_entries = index_block.entries().unwrap();
    assert_eq!(index_entries.len(), 1);
    assert_eq!(index_entries[0].key, b"key".to_vec());

    let (h, consumed) = Handle::decode(&index_entries[0].value, 0).unwrap();
    assert_eq!(consumed, index_entries[0].value.len());
    assert_eq!(h, data_handle);

    let data_block = h.read_block(&file).unwrap();
    let data_entries = data_block.entries().unwrap();
    assert_eq!(data_entries.len(), 1);
    assert_eq!(data_entries[0].key, b"key".to_vec());
    assert_eq!(data_entries[0].value, b"value".to_vec());
}

#[test]
fn key_le_orders_lexicographically() {
    let ab: Vec<u8> = b"ab".to_vec();
    let abc: Vec<u8> = b"abc".to_vec();
    let abd: Vec<u8> = b"abd".to_vec();
    let empty: Vec<u8> = vec![];
    assert!(sstable::seek::key_le(&ab, &abc));
    assert!(!sstable::seek::key_le(&abc, &ab));
    assert!(sstable::seek::key_le(&abc, &abd));
    assert!(!sstable::seek::key_le(&abd, &abc));
    assert!(sstable::seek::key_le(&abc, &abc));
    assert!(sstable::seek::key_le(&empty, &ab));
    assert!(!sstable::seek::key_le(&ab, &empty));
}

#[test]
fn seek_finds_first_entry_at_or_past_target() {
    let mut payload: Vec<u8> = vec![
        0, 3, 1, b'a', b'b', b'c', b'1',
        2, 1, 1, b'd', b'2',
    ];
    let second_restart: u32 = payload.len() as u32;
    payload.extend_from_slice(&[0, 2, 1, b'x', b'y', b'3']);
    let (file, handle) = block_file(&payload, &[0, second_restart], 2, 0);
    let block = handle.read_block(&file).unwrap();

    assert_eq!(block.seek(b"").unwrap(), Some(0));
    assert_eq!(block.seek(b"abc").unwrap(), Some(0));
    assert_eq!(block.seek(b"abd").unwrap(), Some(1));
    assert_eq!(block.seek(b"b").unwrap(), Some(2));
    assert_eq!(block.seek(b"xy").unwrap(), Some(2));
    assert_eq!(block.seek(b"xz").unwrap(), None);
}

#[test]
fn seek_fails_on_corrupt_block() {
    let payload: Vec<u8> = vec![5, 0, 0];
    let (file, handle) = block_file(&payload, &[0], 1, 0);
    let block = handle.read_block(&file).unwrap();
    assert_eq!(block.seek(b"a").err(), Some(Error::CorruptBlock));
}
