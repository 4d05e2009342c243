use image_layer::blob_io::{append_blob, read_blob, BlobWriter, MAX_BLOB_LEN};
use image_layer::block_io::{BlockReader, MemoryFile, PAGE_SZ};
use image_layer::error::LayerError;

struct BrokenDisk;

impl BlockReader for BrokenDisk {
    fn read_blk(&self, _blknum: u32) -> Result<Vec<u8>, LayerError> {
        Err(LayerError::Io)
    }

    fn read_tail(&self, _offset: u64) -> Result<Vec<u8>, LayerError> {
        Err(LayerError::Io)
    }
}

fn pattern(len: usize) -> Vec<u8> {
    (0..len).map(|i| (i * 7 + 3) as u8).collect()
}

/// A file of whole pages that holds `record` at `offset`.
fn file_with(offset: usize, record: &[u8], pages: usize) -> MemoryFile {
    let mut data = vec![0xa5u8; pages * PAGE_SZ];
    data[offset..offset + record.len()].copy_from_slice(record);
    MemoryFile::new(data)
}

#[test]
fn short_blob_has_a_one_byte_prefix() {
    let mut out = vec![0xffu8];
    append_blob(&mut out, b"hello");
    assert_eq!(out, vec![0xff, 5, b'h', b'e', b'l', b'l', b'o']);
}

#[test]
fn empty_blob_is_a_single_zero() {
    let mut out = Vec::new();
    append_blob(&mut out, b"");
    assert_eq!(out, vec![0]);
}

#[test]
fn blob_of_127_bytes_has_a_one_byte_prefix() {
    let payload = pattern(127);
    let mut out = Vec::new();
    append_blob(&mut out, &payload);
    assert_eq!(out.len(), 128);
    assert_eq!(out[0], 127);
    assert_eq!(&out[1..], &payload[..]);
}

#[test]
fn blob_of_128_bytes_has_a_four_byte_prefix() {
    let payload = pattern(128);
    let mut out = Vec::new();
    append_blob(&mut out, &payload);
    assert_eq!(out.len(), 132);
    assert_eq!(&out[..4], &[0x80, 0, 0, 0x80]);
    assert_eq!(&out[4..], &payload[..]);
}

#[test]
fn long_prefix_holds_the_length_big_endian() {
    let payload = pattern(0x01_02_03);
    let mut out = Vec::new();
    append_blob(&mut out, &payload);
    assert_eq!(&out[..4], &[0x80, 0x01, 0x02, 0x03]);
    assert_eq!(out.len(), 4 + 0x01_02_03);
}

#[test]
fn writer_tells_where_each_blob_starts() {
    let mut writer = BlobWriter::new(PAGE_SZ as u64);
    assert_eq!(writer.size(), 8192);
    assert_eq!(writer.write_blob(b"hello"), Ok(8192));
    assert_eq!(writer.size(), 8198);
    assert_eq!(writer.write_blob(&pattern(4096)), Ok(8198));
    assert_eq!(writer.size(), 8198 + 4 + 4096);
    assert_eq!(writer.write_blob(b""), Ok(12298));
    assert_eq!(writer.size(), 12299);
    let bytes = writer.into_inner();
    assert_eq!(bytes.len(), 12299 - 8192);
    assert_eq!(&bytes[..6], &[5, b'h', b'e', b'l', b'l', b'o']);
    assert_eq!(&bytes[6..10], &[0x80, 0, 0x10, 0]);
    assert_eq!(bytes[12298 - 8192], 0);
}

#[test]
fn writer_refuses_a_record_that_ends_behind_the_largest_offset() {
    let mut writer = BlobWriter::new(u64::MAX - 5);
    assert_eq!(writer.write_blob(b"hello"), Err(LayerError::Io));
    assert_eq!(writer.size(), u64::MAX - 5);
    assert_eq!(writer.write_blob(b"hell"), Ok(u64::MAX - 5));
    assert_eq!(writer.size(), u64::MAX);
    assert_eq!(writer.write_blob(b""), Err(LayerError::Io));
    assert_eq!(writer.into_inner(), vec![4, b'h', b'e', b'l', b'l']);
}

#[test]
fn longest_blob_is_shorter_than_two_gibibytes() {
    assert_eq!(MAX_BLOB_LEN, 1usize << 31);
}

#[test]
fn blob_is_read_where_it_was_written() {
    let mut record = Vec::new();
    append_blob(&mut record, b"hello");
    let file = file_with(PAGE_SZ + 100, &record, 3);
    assert_eq!(read_blob(&file, (PAGE_SZ + 100) as u64), Ok(b"hello".to_vec()));
}

#[test]
fn blobs_behind_one_another_are_each_read() {
    let mut writer = BlobWriter::new(PAGE_SZ as u64);
    let payloads = [pattern(0), pattern(1), pattern(127), pattern(128), pattern(5000), pattern(9000)];
    let mut offsets = Vec::new();
    for payload in &payloads {
        offsets.push(writer.write_blob(payload).unwrap());
    }
    let mut data = vec![0u8; PAGE_SZ];
    data.extend_from_slice(&writer.into_inner());
    data.resize(4 * PAGE_SZ, 0);
    let file = MemoryFile::new(data);
    for (offset, payload) in offsets.iter().zip(&payloads) {
        assert_eq!(read_blob(&file, *offset), Ok(payload.clone()));
    }
}

#[test]
fn blob_that_runs_across_pages_is_read() {
    let payload = pattern(3 * PAGE_SZ + 17);
    let mut record = Vec::new();
    append_blob(&mut record, &payload);
    let file = file_with(PAGE_SZ - 9, &record, 6);
    assert_eq!(read_blob(&file, (PAGE_SZ - 9) as u64), Ok(payload));
}

#[test]
fn length_prefix_that_runs_across_pages_is_read() {
    let payload = pattern(300);
    let mut record = Vec::new();
    append_blob(&mut record, &payload);
    for back in 1..4 {
        let offset = 2 * PAGE_SZ - back;
        let file = file_with(offset, &record, 3);
        assert_eq!(read_blob(&file, offset as u64), Ok(payload.clone()));
    }
}

#[test]
fn blob_that_ends_with_its_page_is_read() {
    let payload = pattern(200);
    let mut record = Vec::new();
    append_blob(&mut record, &payload);
    let offset = 2 * PAGE_SZ - record.len();
    let file = file_with(offset, &record, 2);
    assert_eq!(read_blob(&file, offset as u64), Ok(payload));
}

#[test]
fn empty_blob_in_the_last_byte_is_read() {
    let file = file_with(PAGE_SZ - 1, &[0], 1);
    assert_eq!(read_blob(&file, (PAGE_SZ - 1) as u64), Ok(Vec::new()));
}

#[test]
fn blob_behind_the_end_is_a_storage_failure() {
    let file = file_with(0, &[], 2);
    assert_eq!(read_blob(&file, (2 * PAGE_SZ) as u64), Err(LayerError::Io));
    assert_eq!(read_blob(&file, u64::MAX), Err(LayerError::Io));
    assert_eq!(read_blob(&file, (PAGE_SZ as u64) << 32), Err(LayerError::Io));
}

#[test]
fn blob_that_the_file_cuts_short_is_a_storage_failure() {
    let payload = pattern(300);
    let mut record = Vec::new();
    append_blob(&mut record, &payload);
    // the payload runs into a page that is not there
    let file = file_with(PAGE_SZ - 100, &record[..100], 1);
    assert_eq!(read_blob(&file, (PAGE_SZ - 100) as u64), Err(LayerError::Io));
    // the prefix does
    let file = file_with(PAGE_SZ - 2, &record[..2], 1);
    assert_eq!(read_blob(&file, (PAGE_SZ - 2) as u64), Err(LayerError::Io));
}

#[test]
fn only_whole_pages_are_read() {
    let mut record = Vec::new();
    append_blob(&mut record, b"hello");
    let mut data = vec![0u8; PAGE_SZ];
    data.extend_from_slice(&record);
    let file = MemoryFile::new(data.clone());
    assert_eq!(read_blob(&file, PAGE_SZ as u64), Err(LayerError::Io));
    data.resize(2 * PAGE_SZ, 0);
    let file = MemoryFile::new(data);
    assert_eq!(read_blob(&file, PAGE_SZ as u64), Ok(b"hello".to_vec()));
}

#[test]
fn failure_of_the_storage_is_handed_on() {
    assert_eq!(read_blob(&BrokenDisk, 0), Err(LayerError::Io));
    assert_eq!(read_blob(&BrokenDisk, 8192), Err(LayerError::Io));
}

#[test]
fn memory_file_hands_out_whole_pages() {
    let data = pattern(2 * PAGE_SZ + 10);
    let file = MemoryFile::new(data.clone());
    assert_eq!(file.read_blk(0), Ok(data[..PAGE_SZ].to_vec()));
    assert_eq!(file.read_blk(1), Ok(data[PAGE_SZ..2 * PAGE_SZ].to_vec()));
    assert_eq!(file.read_blk(2), Err(LayerError::Io));
    assert_eq!(file.read_blk(u32::MAX), Err(LayerError::Io));
}

#[test]
fn memory_file_hands_out_its_tail() {
    let data = pattern(100);
    let file = MemoryFile::new(data.clone());
    assert_eq!(file.read_tail(0), Ok(data.clone()));
    assert_eq!(file.read_tail(40), Ok(data[40..].to_vec()));
    assert_eq!(file.read_tail(100), Ok(Vec::new()));
    assert_eq!(file.read_tail(101), Err(LayerError::Io));
    assert_eq!(file.read_tail(u64::MAX), Err(LayerError::Io));
}
