use image_layer::block_io::MemoryFile;
use image_layer::error::LayerError;
use image_layer::filename::{ImageFileName, PageServerConf};
use image_layer::image_layer::ImageLayer;
use image_layer::lsn::Lsn;
use image_layer::repository::Key;
use image_layer::summary::{Summary, IMAGE_FILE_MAGIC, STORAGE_FORMAT_VERSION, SUMMARY_SIZE};
use image_layer::zid::{ZTenantId, ZTimelineId};

fn example() -> Summary {
    Summary {
        magic: IMAGE_FILE_MAGIC,
        format_version: STORAGE_FORMAT_VERSION,
        tenantid: ZTenantId { bytes: [0x11; 16] },
        timelineid: ZTimelineId { bytes: [0x22; 16] },
        key_range: Key { bytes: [0x33; 18] }..Key { bytes: [0x44; 18] },
        lsn: Lsn(0x0102_0304_0506_0708),
        index_start_blk: 0x0a0b_0c0d,
    }
}

fn example_bytes() -> Vec<u8> {
    let mut bytes = vec![0x5a, 0x60, 0x00, 0x01];
    bytes.extend_from_slice(&[0x11; 16]);
    bytes.extend_from_slice(&[0x22; 16]);
    bytes.extend_from_slice(&[0x33; 18]);
    bytes.extend_from_slice(&[0x44; 18]);
    bytes.extend_from_slice(&[1, 2, 3, 4, 5, 6, 7, 8]);
    bytes.extend_from_slice(&[0x0a, 0x0b, 0x0c, 0x0d]);
    bytes
}

#[test]
fn summary_is_stored_field_by_field() {
    let bytes = example().ser();
    assert_eq!(bytes.len(), SUMMARY_SIZE);
    assert_eq!(bytes, example_bytes());
}

#[test]
fn summary_is_read_field_by_field() {
    assert_eq!(Summary::des_prefix(&example_bytes()), Ok(example()));
}

#[test]
fn summary_round_trips() {
    for index_start_blk in [0u32, 1, u32::MAX] {
        for lsn in [0u64, 0x100, u64::MAX] {
            let summary = Summary {
                magic: IMAGE_FILE_MAGIC,
                format_version: STORAGE_FORMAT_VERSION,
                tenantid: ZTenantId { bytes: [0xff; 16] },
                timelineid: ZTimelineId { bytes: [0; 16] },
                key_range: Key { bytes: [0; 18] }..Key { bytes: [0xff; 18] },
                lsn: Lsn(lsn),
                index_start_blk,
            };
            assert_eq!(Summary::des_prefix(&summary.ser()), Ok(summary));
        }
    }
}

#[test]
fn summary_is_read_from_the_start_of_a_page() {
    let mut page = example_bytes();
    page.resize(8192, 0xcc);
    assert_eq!(Summary::des_prefix(&page), Ok(example()));
}

#[test]
fn summary_that_is_cut_short_is_refused() {
    let bytes = example_bytes();
    assert_eq!(Summary::des_prefix(&bytes[..83]), Err(LayerError::Format));
    assert_eq!(Summary::des_prefix(&bytes[..2]), Err(LayerError::Format));
    assert_eq!(Summary::des_prefix(&[]), Err(LayerError::Format));
}

#[test]
fn summary_with_another_magic_is_refused() {
    let mut bytes = example_bytes();
    bytes[0] ^= 0xff;
    assert_eq!(Summary::des_prefix(&bytes), Err(LayerError::Format));
    let mut bytes = example_bytes();
    bytes[1] = 0x61;
    assert_eq!(Summary::des_prefix(&bytes), Err(LayerError::Format));
    let with_magic_0 = Summary { magic: 0, ..example() };
    assert_eq!(Summary::des_prefix(&with_magic_0.ser()), Err(LayerError::Format));
}

#[test]
fn summary_with_another_version_is_refused() {
    let mut bytes = example_bytes();
    bytes[3] = 2;
    assert_eq!(Summary::des_prefix(&bytes), Err(LayerError::Format));
    let mut bytes = example_bytes();
    bytes[2] = 1;
    assert_eq!(Summary::des_prefix(&bytes), Err(LayerError::Format));
}

#[test]
fn summaries_are_compared_in_every_field() {
    let summary = example();
    assert!(summary.same_as(&example()));
    assert!(!summary.same_as(&Summary { magic: 1, ..example() }));
    assert!(!summary.same_as(&Summary { format_version: 9, ..example() }));
    assert!(!summary.same_as(&Summary { tenantid: ZTenantId { bytes: [0; 16] }, ..example() }));
    assert!(!summary.same_as(&Summary { timelineid: ZTimelineId { bytes: [0; 16] }, ..example() }));
    assert!(!summary.same_as(&Summary {
        key_range: Key { bytes: [0x33; 18] }..Key { bytes: [0x45; 18] },
        ..example()
    }));
    assert!(!summary.same_as(&Summary {
        key_range: Key { bytes: [0x32; 18] }..Key { bytes: [0x44; 18] },
        ..example()
    }));
    assert!(!summary.same_as(&Summary { lsn: Lsn(1), ..example() }));
    assert!(!summary.same_as(&Summary { index_start_blk: 1, ..example() }));
}

#[test]
fn summary_of_a_layer_has_no_index_start() {
    let conf: &'static PageServerConf =
        Box::leak(Box::new(PageServerConf { workdir: String::from("/data") }));
    let name = ImageFileName {
        key_range: Key { bytes: [0x33; 18] }..Key { bytes: [0x44; 18] },
        lsn: Lsn(0x0102_0304_0506_0708),
    };
    let layer: ImageLayer<MemoryFile> = ImageLayer::new(
        conf,
        ZTimelineId { bytes: [0x22; 16] },
        ZTenantId { bytes: [0x11; 16] },
        &name,
    );
    let expected = Summary { index_start_blk: 0, ..example() };
    assert_eq!(Summary::from(&layer), expected);
    assert_eq!(layer.summary(), expected);
}
