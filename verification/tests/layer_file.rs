use image_layer::block_io::PAGE_SZ;
use image_layer::error::LayerError;
use image_layer::index::Index;
use image_layer::layer_file::{read_index, read_summary, MAX_VALUES_END};
use image_layer::lsn::Lsn;
use image_layer::repository::Key;
use image_layer::storage_layer::BlobRef;
use image_layer::summary::{Summary, IMAGE_FILE_MAGIC, STORAGE_FORMAT_VERSION};
use image_layer::zid::{ZTenantId, ZTimelineId};

fn key(n: u8) -> Key {
    let mut bytes = [0u8; 18];
    bytes[0] = n;
    Key { bytes }
}

fn summary(index_start_blk: u32) -> Summary {
    Summary {
        magic: IMAGE_FILE_MAGIC,
        format_version: STORAGE_FORMAT_VERSION,
        tenantid: ZTenantId { bytes: [3; 16] },
        timelineid: ZTimelineId { bytes: [4; 16] },
        key_range: key(10)..key(20),
        lsn: Lsn(50),
        index_start_blk,
    }
}

fn page_of(summary: &Summary) -> Vec<u8> {
    let mut page = summary.ser();
    page.resize(PAGE_SZ, 0);
    page
}

fn stored(entries: &[(u8, u64)]) -> Vec<u8> {
    let mut index = Index::new();
    for (k, pos) in entries {
        index.insert(key(*k), BlobRef::new(*pos, true));
    }
    index.ser()
}

#[test]
fn summary_of_the_layer_stands_the_check() {
    let page = page_of(&summary(7));
    assert_eq!(read_summary(&page, &summary(0), true), Ok(summary(7)));
    assert_eq!(read_summary(&page, &summary(0), false), Ok(summary(7)));
    // the index start that is expected does not count
    assert_eq!(read_summary(&page, &summary(99), true), Ok(summary(7)));
    // nor does what follows the summary
    assert_eq!(read_summary(&page[..84], &summary(0), true), Ok(summary(7)));
}

#[test]
fn summary_of_another_layer_stands_the_check_only_where_it_is_not_strict() {
    let other = Summary { lsn: Lsn(51), ..summary(7) };
    let page = page_of(&other);
    assert_eq!(read_summary(&page, &summary(0), true), Err(LayerError::Format));
    assert_eq!(read_summary(&page, &summary(0), false), Ok(other));
}

#[test]
fn summary_that_puts_the_index_into_the_first_page_fails_the_check() {
    let page = page_of(&summary(0));
    assert_eq!(read_summary(&page, &summary(0), true), Err(LayerError::Format));
    assert_eq!(read_summary(&page, &summary(0), false), Err(LayerError::Format));
    let page = page_of(&summary(1));
    assert_eq!(read_summary(&page, &summary(0), true), Ok(summary(1)));
}

#[test]
fn page_without_a_summary_fails_the_check() {
    assert_eq!(read_summary(&[0u8; PAGE_SZ], &summary(0), false), Err(LayerError::Format));
    assert_eq!(read_summary(&[], &summary(0), false), Err(LayerError::Format));
    let page = page_of(&summary(7));
    assert_eq!(read_summary(&page[..83], &summary(0), false), Err(LayerError::Format));
}

#[test]
fn index_within_its_bounds_stands_the_check() {
    let range = key(10)..key(20);
    let tail = stored(&[(10, 0), (15, 8192), (19, 16383)]);
    let index = read_index(&tail, &range, 16384).unwrap();
    assert_eq!(index.len(), 3);
    assert_eq!(index.find(&key(15)), Some(BlobRef::new(8192, true)));
    assert_eq!(read_index(&stored(&[]), &range, 0).unwrap().len(), 0);
}

#[test]
fn index_outside_its_bounds_fails_the_check() {
    let range = key(10)..key(20);
    assert!(matches!(
        read_index(&stored(&[(10, 0), (20, 0)]), &range, 16384),
        Err(LayerError::Format)
    ));
    assert!(matches!(
        read_index(&stored(&[(9, 0), (10, 0)]), &range, 16384),
        Err(LayerError::Format)
    ));
    assert!(matches!(
        read_index(&stored(&[(10, 0), (11, 16384)]), &range, 16384),
        Err(LayerError::Format)
    ));
    assert!(matches!(read_index(&stored(&[(10, 0)]), &range, 0), Err(LayerError::Format)));
    assert!(matches!(read_index(&[1, 2, 3], &range, 16384), Err(LayerError::Format)));
}

#[test]
fn values_end_where_the_last_block_number_starts() {
    assert_eq!(MAX_VALUES_END, u32::MAX as u64 * PAGE_SZ as u64);
}
