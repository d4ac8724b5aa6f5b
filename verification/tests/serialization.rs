use dense_index::buffered_io::{BufIoError, BufferManagerFactory};
use dense_index::storage::{FileIndex, Storage};

fn fresh_buffer(version: u32) -> (BufferManagerFactory, u64) {
    let mut bufmans = BufferManagerFactory::new();
    bufmans.get(version);
    let cursor = bufmans.open_cursor(version);
    (bufmans, cursor)
}

#[test]
fn serialize_unsigned_byte() {
    let (mut bufmans, cursor) = fresh_buffer(7);
    let s = Storage::UnsignedByte { mag: 42, quant_vec: vec![1, 2, 3] };
    let start = s.serialize(&mut bufmans, 7, cursor).unwrap();
    assert_eq!(start, 0);
    let bytes = bufmans.file_bytes(7).unwrap();
    assert_eq!(
        bytes,
        vec![0x00, 0x2A, 0x00, 0x00, 0x00, 0x03, 0x00, 0x00, 0x00, 0x01, 0x02, 0x03]
    );
    let back =
        Storage::deserialize(&mut bufmans, FileIndex::Valid { offset: start, version_id: 7 })
            .unwrap();
    assert_eq!(back, s);
}

#[test]
fn serialize_half_precision() {
    let (mut bufmans, cursor) = fresh_buffer(3);
    let s = Storage::HalfPrecisionFP {
        mag: 1.0f32.to_bits(),
        quant_vec: vec![
            half::f16::from_f32(0.0).to_bits(),
            half::f16::from_f32(1.0).to_bits(),
        ],
    };
    let start = s.serialize(&mut bufmans, 3, cursor).unwrap();
    assert_eq!(start, 0);
    let bytes = bufmans.file_bytes(3).unwrap();
    let mut expected = vec![0x02];
    expected.extend_from_slice(&1.0f32.to_le_bytes());
    expected.extend_from_slice(&[0x02, 0x00, 0x00, 0x00]);
    expected.extend_from_slice(&[0x00, 0x00]);
    expected.extend_from_slice(&[0x00, 0x3C]);
    assert_eq!(bytes, expected);
    let back =
        Storage::deserialize(&mut bufmans, FileIndex::Valid { offset: start, version_id: 3 })
            .unwrap();
    assert_eq!(back, s);
}

#[test]
fn serialize_sub_byte_round_trip() {
    let (mut bufmans, cursor) = fresh_buffer(11);
    let s = Storage::SubByte {
        mag: 2.5f32.to_bits(),
        quant_vec: vec![vec![0xAB, 0xCD], vec![], vec![9]],
        resolution: 4,
    };
    let start = s.serialize(&mut bufmans, 11, cursor).unwrap();
    let mut expected = vec![0x01, 0x04];
    expected.extend_from_slice(&2.5f32.to_le_bytes());
    expected.extend_from_slice(&[0x03, 0x00, 0x00, 0x00]);
    expected.extend_from_slice(&[0x02, 0x00, 0x00, 0x00, 0xAB, 0xCD]);
    expected.extend_from_slice(&[0x00, 0x00, 0x00, 0x00]);
    expected.extend_from_slice(&[0x01, 0x00, 0x00, 0x00, 0x09]);
    assert_eq!(bufmans.file_bytes(11).unwrap(), expected);
    let back =
        Storage::deserialize(&mut bufmans, FileIndex::Valid { offset: start, version_id: 11 })
            .unwrap();
    assert_eq!(back, s);
}

#[test]
fn records_append_back_to_back() {
    let (mut bufmans, cursor) = fresh_buffer(1);
    let a = Storage::UnsignedByte { mag: 1, quant_vec: vec![] };
    let b = Storage::UnsignedByte { mag: 2, quant_vec: vec![0xFF] };
    let off_a = a.serialize(&mut bufmans, 1, cursor).unwrap();
    let off_b = b.serialize(&mut bufmans, 1, cursor).unwrap();
    assert_eq!(off_a, 0);
    assert_eq!(off_b, 9);
    let back_b =
        Storage::deserialize(&mut bufmans, FileIndex::Valid { offset: off_b, version_id: 1 })
            .unwrap();
    let back_a =
        Storage::deserialize(&mut bufmans, FileIndex::Valid { offset: off_a, version_id: 1 })
            .unwrap();
    assert_eq!(back_a, a);
    assert_eq!(back_b, b);
}

#[test]
fn deserialize_invalid_file_index() {
    let mut bufmans = BufferManagerFactory::new();
    let r = Storage::deserialize(&mut bufmans, FileIndex::Invalid);
    assert_eq!(r, Err(BufIoError::InvalidInput));
}

#[test]
fn deserialize_unknown_discriminator() {
    let (mut bufmans, cursor) = fresh_buffer(5);
    bufmans.write_u8_with_cursor(5, cursor, 9);
    bufmans.write_u32_with_cursor(5, cursor, 0);
    let r = Storage::deserialize(&mut bufmans, FileIndex::Valid { offset: 0, version_id: 5 });
    assert_eq!(r, Err(BufIoError::InvalidData));
}

#[test]
fn deserialize_truncated_record() {
    let (mut bufmans, cursor) = fresh_buffer(6);
    bufmans.write_u8_with_cursor(6, cursor, 0);
    bufmans.write_u32_with_cursor(6, cursor, 42);
    // the length field and payload are missing
    let r = Storage::deserialize(&mut bufmans, FileIndex::Valid { offset: 0, version_id: 6 });
    assert_eq!(r, Err(BufIoError::UnexpectedEof));
}

#[test]
fn cursor_positions_track_appends() {
    let mut bufmans = BufferManagerFactory::new();
    bufmans.get(2);
    let cursor = bufmans.open_cursor(2);
    assert_eq!(bufmans.cursor_position(2, cursor), 0);
    bufmans.write_u32_with_cursor(2, cursor, 0xDEADBEEF);
    assert_eq!(bufmans.cursor_position(2, cursor), 4);
    assert_eq!(bufmans.buffer_len(2), 4);
    let reader = bufmans.open_cursor(2);
    bufmans.seek_with_cursor(2, reader, 0);
    assert_eq!(bufmans.read_u32_with_cursor(2, reader).unwrap(), 0xDEADBEEF);
    assert_eq!(
        bufmans.read_u8_with_cursor(2, reader),
        Err(BufIoError::UnexpectedEof)
    );
    bufmans.close_cursor(2, reader);
}
