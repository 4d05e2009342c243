use bytes::Bytes;
use image_layer::block_io::{BlockReader, MemoryFile, PAGE_SZ};
use image_layer::error::LayerError;
use image_layer::filename::{ImageFileName, PageServerConf};
use image_layer::image_layer::{
    ImageLayer, ImageLayerInner, ImageLayerWriter, LoadStep, UNLOAD_GATE,
};
use image_layer::index::Index;
use image_layer::lsn::Lsn;
use image_layer::repository::Key;
use image_layer::storage_layer::{BlobRef, ValueReconstructResult, ValueReconstructState};
use image_layer::summary::{Summary, IMAGE_FILE_MAGIC, STORAGE_FORMAT_VERSION};
use image_layer::zid::{ZTenantId, ZTimelineId};
use std::cell::Cell;
use std::ops::Range;

const TENANT: ZTenantId = ZTenantId { bytes: [0xaa; 16] };
const TIMELINE: ZTimelineId = ZTimelineId { bytes: [0xbb; 16] };
const LSN: Lsn = Lsn(0x100);

fn conf() -> &'static PageServerConf {
    Box::leak(Box::new(PageServerConf { workdir: String::from("/data") }))
}

fn key(n: u8) -> Key {
    let mut bytes = [0u8; 18];
    bytes[17] = n;
    Key { bytes }
}

fn range() -> Range<Key> {
    key(10)..key(100)
}

fn name() -> ImageFileName {
    ImageFileName { key_range: range(), lsn: LSN }
}

fn new_layer<R: BlockReader>() -> ImageLayer<R> {
    ImageLayer::new(conf(), TIMELINE, TENANT, &name())
}

/// The file of the layer with a value for the keys 20, 30 and 40.
fn good_file() -> Vec<u8> {
    let mut w = ImageLayerWriter::new(conf(), TIMELINE, TENANT, &range(), LSN);
    w.put_image(key(20), b"twenty").unwrap();
    w.put_image(key(30), b"thirty").unwrap();
    w.put_image(key(40), b"forty").unwrap();
    w.finish::<MemoryFile>().1
}

fn summary(index_start_blk: u32) -> Summary {
    Summary {
        magic: IMAGE_FILE_MAGIC,
        format_version: STORAGE_FORMAT_VERSION,
        tenantid: TENANT,
        timelineid: TIMELINE,
        key_range: range(),
        lsn: LSN,
        index_start_blk,
    }
}

/// A file put together by hand: the summary, values from the second page
/// on, and the index at the block that the summary names.
fn file_of(summary: &Summary, values: &[u8], index: &[u8]) -> Vec<u8> {
    let mut bytes = summary.ser();
    bytes.resize(PAGE_SZ, 0);
    bytes.extend_from_slice(values);
    bytes.resize(summary.index_start_blk as usize * PAGE_SZ, 0);
    bytes.extend_from_slice(index);
    bytes
}

fn index_of(entries: &[(Key, u64)]) -> Vec<u8> {
    let mut index = Index::new();
    for (k, pos) in entries {
        assert!(index.insert(*k, BlobRef::new(*pos, true)));
    }
    index.ser()
}

fn get<R: BlockReader>(
    layer: &mut ImageLayer<R>,
    k: Key,
) -> (Result<ValueReconstructResult, LayerError>, Option<(Lsn, Bytes)>) {
    let mut state = ValueReconstructState::new();
    let r = layer.get_value_reconstruct_data(k, LSN..Lsn(LSN.0 + 1), &mut state);
    (r, state.img)
}

fn load_of(bytes: Vec<u8>) -> Result<(), LayerError> {
    let mut layer = new_layer();
    layer.set_file(MemoryFile::new(bytes));
    let r = layer.load();
    assert_eq!(layer.is_loaded(), r.is_ok());
    r
}

/// A disk that works a given number of times and fails from then on.
struct FailingDisk {
    file: MemoryFile,
    reads_left: Cell<u32>,
}

impl FailingDisk {
    fn new(bytes: Vec<u8>, reads: u32) -> FailingDisk {
        FailingDisk { file: MemoryFile::new(bytes), reads_left: Cell::new(reads) }
    }

    fn spend(&self) -> Result<(), LayerError> {
        if self.reads_left.get() == 0 {
            return Err(LayerError::Io);
        }
        self.reads_left.set(self.reads_left.get() - 1);
        Ok(())
    }
}

impl BlockReader for FailingDisk {
    fn read_blk(&self, blknum: u32) -> Result<Vec<u8>, LayerError> {
        self.spend()?;
        self.file.read_blk(blknum)
    }

    fn read_tail(&self, offset: u64) -> Result<Vec<u8>, LayerError> {
        self.spend()?;
        self.file.read_tail(offset)
    }
}

/// A disk that hands out pages of the wrong size.
struct ShortPages(MemoryFile);

impl BlockReader for ShortPages {
    fn read_blk(&self, blknum: u32) -> Result<Vec<u8>, LayerError> {
        let mut page = self.0.read_blk(blknum)?;
        if blknum > 0 {
            page.truncate(100);
        }
        Ok(page)
    }

    fn read_tail(&self, offset: u64) -> Result<Vec<u8>, LayerError> {
        self.0.read_tail(offset)
    }
}

#[test]
fn new_layer_has_nothing_in_memory() {
    let layer: ImageLayer<MemoryFile> = new_layer();
    assert!(!layer.is_loaded());
    assert!(!layer.has_file());
    assert_eq!(layer.get_key_range(), range());
    assert_eq!(layer.get_lsn(), LSN);
    assert_eq!(layer.get_tenant_id(), TENANT);
    assert_eq!(layer.get_timeline_id(), TIMELINE);
    assert_eq!(
        layer.path(),
        "/data/tenants/aaaaaaaaaaaaaaaaaaaaaaaaaaaaaaaa/timelines/bbbbbbbbbbbbbbbbbbbbbbbbbbbbbbbb/\
         00000000000000000000000000000000000A-000000000000000000000000000000000064__0000000000000100"
    );
    let _inner: ImageLayerInner<MemoryFile> = ImageLayerInner::new(0);
}

#[test]
fn file_is_opened_then_the_index_is_read() {
    let mut layer = new_layer();
    assert_eq!(layer.load_step(), LoadStep::OpenFile);
    layer.set_file(MemoryFile::new(good_file()));
    assert_eq!(layer.load_step(), LoadStep::ReadIndex);
    layer.load_inner().unwrap();
    assert_eq!(layer.load_step(), LoadStep::Ready);
    assert!(layer.unload_with(0));
    // the reader is still there
    assert_eq!(layer.load_step(), LoadStep::ReadIndex);
}

#[test]
fn lookup_reads_the_index_once() {
    let mut layer = new_layer();
    layer.set_file(MemoryFile::new(good_file()));
    assert!(layer.has_file());
    assert!(!layer.is_loaded());
    let (r, img) = get(&mut layer, key(30));
    assert_eq!(r, Ok(ValueReconstructResult::Complete));
    assert_eq!(img, Some((LSN, Bytes::from_static(b"thirty"))));
    assert!(layer.is_loaded());
    assert_eq!(layer.load(), Ok(()));
    assert!(layer.is_loaded());
}

#[test]
fn lookup_without_the_index_in_memory_does_nothing() {
    let mut layer = new_layer();
    layer.set_file(MemoryFile::new(good_file()));
    let mut state = ValueReconstructState::new();
    assert_eq!(layer.get_value_if_loaded(key(30), LSN..Lsn(0x101), &mut state), None);
    assert_eq!(state.img, None);
    layer.load().unwrap();
    assert_eq!(
        layer.get_value_if_loaded(key(30), LSN..Lsn(0x101), &mut state),
        Some(Ok(ValueReconstructResult::Complete))
    );
    assert_eq!(state.img, Some((LSN, Bytes::from_static(b"thirty"))));
    let mut state = ValueReconstructState::new();
    assert_eq!(
        layer.get_value_if_loaded(key(31), LSN..Lsn(0x101), &mut state),
        Some(Ok(ValueReconstructResult::Missing))
    );
    assert_eq!(state.img, None);
}

#[test]
fn lookup_replaces_what_the_state_held() {
    let mut layer = new_layer();
    layer.set_file(MemoryFile::new(good_file()));
    let mut state = ValueReconstructState::new();
    state.img = Some((Lsn(1), Bytes::from_static(b"earlier")));
    let r = layer.get_value_reconstruct_data(key(31), LSN..Lsn(0x101), &mut state);
    assert_eq!(r, Ok(ValueReconstructResult::Missing));
    assert_eq!(state.img, Some((Lsn(1), Bytes::from_static(b"earlier"))));
    let r = layer.get_value_reconstruct_data(key(40), LSN..Lsn(0x200), &mut state);
    assert_eq!(r, Ok(ValueReconstructResult::Complete));
    assert_eq!(state.img, Some((LSN, Bytes::from_static(b"forty"))));
}

#[test]
fn index_is_dropped_on_a_low_draw_only() {
    let mut layer = new_layer();
    layer.set_file(MemoryFile::new(good_file()));
    layer.load().unwrap();
    assert_eq!(UNLOAD_GATE, u32::MAX / 10);
    assert!(!layer.unload_with(u32::MAX));
    assert!(layer.is_loaded());
    assert!(!layer.unload_with(UNLOAD_GATE + 1));
    assert!(layer.is_loaded());
    assert!(layer.unload_with(UNLOAD_GATE));
    assert!(!layer.is_loaded());
    assert!(layer.has_file());
    layer.load().unwrap();
    assert!(layer.unload_with(0));
    assert!(!layer.is_loaded());
    // dropping what is not there changes nothing
    assert!(layer.unload_with(0));
    assert!(!layer.is_loaded());
}

#[test]
fn answers_do_not_depend_on_loading_and_unloading() {
    let mut fresh = new_layer();
    fresh.set_file(MemoryFile::new(good_file()));
    let mut used = new_layer();
    used.set_file(MemoryFile::new(good_file()));
    let draws = [0u32, u32::MAX, 5, UNLOAD_GATE, UNLOAD_GATE + 1, 0, 0, 77];
    for (round, draw) in draws.iter().enumerate() {
        if round % 3 != 1 {
            used.load().unwrap();
        }
        used.unload_with(*draw);
        used.unload();
        for n in [10u8, 20, 25, 30, 40, 99] {
            let expected = {
                let mut again = new_layer();
                again.set_file(MemoryFile::new(good_file()));
                get(&mut again, key(n))
            };
            assert_eq!(get(&mut used, key(n)), expected);
            assert_eq!(get(&mut fresh, key(n)), expected);
        }
    }
}

#[test]
fn unload_is_only_a_hint() {
    let mut layer = new_layer();
    layer.set_file(MemoryFile::new(good_file()));
    let mut dropped = 0;
    for _ in 0..2000 {
        layer.load().unwrap();
        layer.unload();
        assert!(layer.has_file());
        if !layer.is_loaded() {
            dropped += 1;
        }
        let (r, img) = get(&mut layer, key(20));
        assert_eq!(r, Ok(ValueReconstructResult::Complete));
        assert_eq!(img, Some((LSN, Bytes::from_static(b"twenty"))));
    }
    // about one call in ten drops the index
    assert!(dropped > 50 && dropped < 600, "{}", dropped);
}

#[test]
fn file_with_a_flipped_magic_is_refused() {
    let mut bytes = good_file();
    bytes[0] ^= 0xff;
    let mut layer = new_layer();
    layer.set_file(MemoryFile::new(bytes));
    let (r, img) = get(&mut layer, key(20));
    assert_eq!(r, Err(LayerError::Format));
    assert_eq!(img, None);
    assert!(!layer.is_loaded());
    // and again
    let (r, _) = get(&mut layer, key(20));
    assert_eq!(r, Err(LayerError::Format));
    assert!(!layer.is_loaded());
    assert_eq!(layer.load(), Err(LayerError::Format));
    assert_eq!(layer.load_inner(), Err(LayerError::Format));
    assert_eq!(layer.iter(), Err(LayerError::Format));
}

#[test]
fn file_of_another_version_is_refused() {
    let mut bytes = good_file();
    bytes[3] = 2;
    assert_eq!(load_of(bytes), Err(LayerError::Format));
}

#[test]
fn file_of_another_layer_is_refused() {
    for at in [4usize, 20, 36, 54, 72] {
        let mut bytes = good_file();
        bytes[at] ^= 1;
        assert_eq!(load_of(bytes), Err(LayerError::Format), "byte {}", at);
    }
    assert_eq!(load_of(good_file()), Ok(()));
}

#[test]
fn file_shorter_than_a_page_is_a_storage_failure() {
    let mut bytes = good_file();
    bytes.truncate(PAGE_SZ - 1);
    assert_eq!(load_of(bytes), Err(LayerError::Io));
    assert_eq!(load_of(Vec::new()), Err(LayerError::Io));
}

#[test]
fn file_that_ends_before_its_index_is_a_storage_failure() {
    let mut bytes = good_file();
    bytes.truncate(2 * PAGE_SZ - 1);
    assert_eq!(load_of(bytes), Err(LayerError::Io));
}

#[test]
fn file_whose_index_is_cut_short_is_refused() {
    let whole = good_file();
    for cut in [1usize, 26, 27, 3 * 26, 3 * 26 + 1, 3 * 26 + 8] {
        let mut bytes = whole.clone();
        bytes.truncate(whole.len() - cut);
        assert_eq!(load_of(bytes), Err(LayerError::Format), "cut {}", cut);
    }
}

#[test]
fn file_whose_index_starts_in_the_first_page_is_refused() {
    let mut bytes = file_of(&summary(1), b"", &index_of(&[]));
    assert_eq!(&bytes[80..84], &[0, 0, 0, 1]);
    bytes[83] = 0;
    assert_eq!(load_of(bytes), Err(LayerError::Format));
    let bytes = file_of(&summary(1), b"", &index_of(&[]));
    assert_eq!(load_of(bytes), Ok(()));
}

#[test]
fn file_with_a_key_twice_is_refused() {
    let mut index = vec![0, 0, 0, 0, 0, 0, 0, 2];
    for _ in 0..2 {
        index.extend_from_slice(&key(20).bytes);
        index.extend_from_slice(&BlobRef::new(8192, true).0.to_be_bytes());
    }
    let bytes = file_of(&summary(2), b"\x01a", &index);
    assert_eq!(load_of(bytes), Err(LayerError::Format));
}

#[test]
fn file_with_a_key_outside_the_range_is_refused() {
    for n in [9u8, 100, 200] {
        let bytes = file_of(&summary(2), b"\x01a", &index_of(&[(key(20), 8192), (key(n), 8192)]));
        assert_eq!(load_of(bytes), Err(LayerError::Format), "key {}", n);
    }
    let bytes = file_of(&summary(2), b"\x01a", &index_of(&[(key(10), 8192), (key(99), 8192)]));
    assert_eq!(load_of(bytes), Ok(()));
}

#[test]
fn file_with_a_blob_behind_the_values_is_refused() {
    let limit = 2 * PAGE_SZ as u64;
    for pos in [limit, limit + 1, u64::MAX / 2] {
        let bytes = file_of(&summary(2), b"\x01a", &index_of(&[(key(20), pos)]));
        assert_eq!(load_of(bytes), Err(LayerError::Format), "offset {}", pos);
    }
    let bytes = file_of(&summary(2), b"\x01a", &index_of(&[(key(20), limit - 1)]));
    assert_eq!(load_of(bytes), Ok(()));
}

#[test]
fn blob_that_runs_out_of_the_file_is_a_storage_failure() {
    // a blob of 127 bytes is announced in the last byte before the index,
    // and the index is shorter than that
    let mut values = vec![0u8; PAGE_SZ];
    values[PAGE_SZ - 1] = 127;
    let last = 2 * PAGE_SZ as u64 - 1;
    let bytes = file_of(&summary(2), &values, &index_of(&[(key(20), last)]));
    let mut layer = new_layer();
    layer.set_file(MemoryFile::new(bytes));
    let (r, img) = get(&mut layer, key(20));
    assert_eq!(r, Err(LayerError::Io));
    assert_eq!(img, None);
    assert!(layer.is_loaded());
    assert_eq!(layer.iter(), Err(LayerError::Io));
    let (r, _) = get(&mut layer, key(21));
    assert_eq!(r, Ok(ValueReconstructResult::Missing));
}

#[test]
fn failure_of_the_storage_is_handed_on_and_can_be_tried_again() {
    for reads in 0..2 {
        let mut layer = new_layer();
        layer.set_file(FailingDisk::new(good_file(), reads));
        let (r, img) = get(&mut layer, key(20));
        assert_eq!(r, Err(LayerError::Io));
        assert_eq!(img, None);
        assert!(!layer.is_loaded());
        layer.set_file(FailingDisk::new(good_file(), 3));
        let (r, img) = get(&mut layer, key(20));
        assert_eq!(r, Ok(ValueReconstructResult::Complete));
        assert_eq!(img, Some((LSN, Bytes::from_static(b"twenty"))));
    }
    // the index is read, the value is not
    let mut layer = new_layer();
    layer.set_file(FailingDisk::new(good_file(), 2));
    let (r, img) = get(&mut layer, key(20));
    assert_eq!(r, Err(LayerError::Io));
    assert_eq!(img, None);
    assert!(layer.is_loaded());
    let (r, _) = get(&mut layer, key(21));
    assert_eq!(r, Ok(ValueReconstructResult::Missing));
}

#[test]
fn page_of_the_wrong_size_is_a_storage_failure() {
    let mut layer = new_layer();
    layer.set_file(ShortPages(MemoryFile::new(good_file())));
    let (r, img) = get(&mut layer, key(20));
    assert_eq!(r, Err(LayerError::Io));
    assert_eq!(img, None);
    let (r, _) = get(&mut layer, key(21));
    assert_eq!(r, Ok(ValueReconstructResult::Missing));
}

#[test]
fn new_reader_drops_what_was_in_memory() {
    let mut layer = new_layer();
    layer.set_file(MemoryFile::new(good_file()));
    layer.load().unwrap();
    layer.set_file(MemoryFile::new(good_file()));
    assert!(!layer.is_loaded());
    assert!(layer.has_file());
}

#[test]
fn layer_for_a_path_takes_its_identity_from_the_summary() {
    let bytes = good_file();
    let path = "/tmp/dump/some_file";
    let mut layer: ImageLayer<MemoryFile> =
        ImageLayer::new_for_path(path, &bytes[..PAGE_SZ]).unwrap();
    assert_eq!(layer.path(), path);
    assert_eq!(layer.get_tenant_id(), TENANT);
    assert_eq!(layer.get_timeline_id(), TIMELINE);
    assert_eq!(layer.get_key_range(), range());
    assert_eq!(layer.get_lsn(), LSN);
    assert!(!layer.is_loaded());
    assert!(!layer.has_file());
    assert!(!layer.path_names_layer());
    layer.set_file(MemoryFile::new(bytes));
    let (r, img) = get(&mut layer, key(40));
    assert_eq!(r, Ok(ValueReconstructResult::Complete));
    assert_eq!(img, Some((LSN, Bytes::from_static(b"forty"))));
}

#[test]
fn layer_for_a_path_is_not_held_against_the_summary() {
    let bytes = good_file();
    let mut layer: ImageLayer<MemoryFile> =
        ImageLayer::new_for_path("f", &bytes[..PAGE_SZ]).unwrap();
    // the file is replaced by that of another timeline at another LSN
    let mut w = ImageLayerWriter::new(conf(), ZTimelineId { bytes: [7; 16] }, TENANT, &range(), Lsn(9));
    w.put_image(key(20), b"other").unwrap();
    layer.set_file(MemoryFile::new(w.finish::<MemoryFile>().1));
    let (r, img) = get(&mut layer, key(20));
    assert_eq!(r, Ok(ValueReconstructResult::Complete));
    assert_eq!(img, Some((LSN, Bytes::from_static(b"other"))));
}

#[test]
fn layer_for_a_path_needs_a_summary() {
    let mut page = good_file();
    page.truncate(PAGE_SZ);
    page[0] ^= 0xff;
    assert!(matches!(
        ImageLayer::<MemoryFile>::new_for_path("f", &page),
        Err(LayerError::Format)
    ));
    assert!(matches!(
        ImageLayer::<MemoryFile>::new_for_path("f", &[]),
        Err(LayerError::Format)
    ));
}

#[test]
fn path_names_the_layer_when_it_ends_with_the_file_name() {
    let bytes = good_file();
    let file_name = name().to_string();
    let named = [
        file_name.clone(),
        format!("/{}", file_name),
        format!("dir/{}", file_name),
        format!("/a/b/\u{e9}/{}", file_name),
    ];
    for path in named {
        let layer: ImageLayer<MemoryFile> =
            ImageLayer::new_for_path(&path, &bytes[..PAGE_SZ]).unwrap();
        assert!(layer.path_names_layer(), "{}", path);
    }
    let not_named = [
        String::new(),
        String::from("/"),
        format!("x{}", file_name),
        format!("/dir/x{}", file_name),
        format!("{}x", file_name),
        format!("{}/", file_name),
        file_name[1..].to_string(),
    ];
    for path in not_named {
        let layer: ImageLayer<MemoryFile> =
            ImageLayer::new_for_path(&path, &bytes[..PAGE_SZ]).unwrap();
        assert!(!layer.path_names_layer(), "{}", path);
    }
}
