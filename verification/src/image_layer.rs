//! Image layers: the file, its reader and its writer.
//!
//! An image layer file holds a summary in its first page, then the values
//! as blobs, then, from a page boundary on, the index that tells which blob
//! holds the value of which key.
use crate::blob_io::{blob_at, blob_record, lemma_blob_at_agree, lemma_blob_round_trip, read_blob,
    BlobWriter, MAX_BLOB_LEN};
use crate::block_io::{block_view, BlockReader, PAGE_SZ};
use crate::error::LayerError;
use crate::filename::{image_file_name, layer_path_text, timeline_path_text, ImageFileName,
    PageServerConf, PathOrConf};
use crate::index::{distinct_keys, entries_map, entry_views, lemma_entries_map_at, place_of,
    sorted_by_offset, strictly_sorted, Index, IndexEntry};
use crate::layer_file::{check_layer_file, gap_len, index_in_bounds, index_start_of, layer_file,
    layer_items_owed, layer_lookup, read_index, read_summary, zeros, MAX_VALUES_END};
use crate::lsn::Lsn;
use crate::repository::{key_range_contains, range_contains, Key};
use crate::storage_layer::{bytes_from_vec, BlobRef, ValueReconstructResult,
    ValueReconstructState};
use crate::summary::{parse_summary, zero_padded_page, Summary, SummaryView, IMAGE_FILE_MAGIC,
    STORAGE_FORMAT_VERSION};
use crate::zid::{ZTenantId, ZTimelineId};
use std::ops::Range;
use vstd::prelude::*;
use vstd::string::*;

verus! {

/// Whether `r` succeeds or fails as `owed` does.
pub open spec fn outcome_matches<T, U>(r: Result<T, LayerError>, owed: Result<U, LayerError>)
    -> bool {
    match r {
        Ok(_) => owed is Ok,
        Err(e) => owed == Err::<U, LayerError>(e),
    }
}

/// Whether a lookup that returned `r` and turned the state `before` into
/// `after` did its part for the layer of `lsn`, and, where the reader is
/// reliable, what was `owed`.
///
/// A value that was found is recorded in the state with `lsn`, and the
/// lookup says `Complete`. For a key that the layer does not hold the lookup
/// says `Missing`. It never says `Continue`. A lookup that fails leaves the
/// state as it was; it fails for the storage or for the format of the file.
pub open spec fn value_outcome(
    r: Result<ValueReconstructResult, LayerError>,
    before: ValueReconstructState,
    after: ValueReconstructState,
    lsn: Lsn,
    owed: Result<Option<Seq<u8>>, LayerError>,
    reliable: bool,
) -> bool {
    match r {
        Ok(ValueReconstructResult::Complete) => {
            &&& after.img matches Some((l, _))
            &&& l == lsn
            &&& reliable ==> (owed matches Ok(Some(value)) && after.holds(lsn, value))
        },
        Ok(ValueReconstructResult::Missing) => {
            &&& after == before
            &&& reliable ==> owed == Ok::<Option<Seq<u8>>, LayerError>(None)
        },
        Ok(ValueReconstructResult::Continue) => false,
        Err(e) => {
            &&& after == before
            &&& e == LayerError::Io || e == LayerError::Format
            &&& reliable ==> owed == Err::<Option<Seq<u8>>, LayerError>(e)
        },
    }
}

/// Whether `items` go by the index `index`: each key of the index once, with
/// `lsn`, in the order in which the blobs lie in the file.
pub open spec fn items_follow_index(
    items: Seq<(Key, Lsn, Vec<u8>)>,
    index: Map<Seq<u8>, BlobRef>,
    lsn: Lsn,
) -> bool {
    &&& forall|i: int|
        0 <= i < items.len() ==> index.dom().contains((#[trigger] items[i]).0@) && items[i].1
            == lsn
    &&& forall|i: int, j: int|
        #![trigger items[i], items[j]]
        0 <= i < j < items.len() ==> items[i].0@ != items[j].0@ && index[items[i].0@].spec_pos()
            <= index[items[j].0@].spec_pos()
    &&& forall|k: Seq<u8>| #[trigger]
        index.dom().contains(k) ==> exists|i: int|
            0 <= i < items.len() && (#[trigger] items[i]).0@ == k
}

/// Whether `items` are the values of the layer with the index `index` in
/// `file`: they go by the index, and each holds the value of its key.
pub open spec fn items_of_layer(
    items: Seq<(Key, Lsn, Vec<u8>)>,
    file: Seq<u8>,
    index: Map<Seq<u8>, BlobRef>,
    lsn: Lsn,
) -> bool {
    &&& items_follow_index(items, index, lsn)
    &&& forall|i: int|
        0 <= i < items.len() ==> blob_at(
            block_view(file),
            index[(#[trigger] items[i]).0@].spec_pos() as int,
        ) == Some(items[i].2@)
}

/// The draws of a random `u32` on which `unload` goes on to drop the index:
/// about one in ten.
pub const UNLOAD_GATE: u32 = 429496729;

/// `RngCore::next_u32` on `rand::thread_rng()`: some number. Nothing is
/// known of it, and two calls may differ. The generator of a thread is
/// seeded by the system when the thread first asks for it, and panics where
/// the system cannot seed it; no argument decides that.
#[verifier::external_body]
fn random_u32() -> u32 {
    rand::RngCore::next_u32(&mut rand::thread_rng())
}

/// Reads the summary and the index of the layer `expected` from `file`.
fn read_layer<R: BlockReader>(file: &R, expected: &Summary, strict: bool) -> (r: Result<
    (u32, Index),
    LayerError,
>)
    ensures
        r matches Err(e) ==> e == LayerError::Io || e == LayerError::Format,
        r matches Ok((blk, index)) ==> blk >= 1 && index_in_bounds(
            index@,
            expected@.key_start,
            expected@.key_end,
            blk * PAGE_SZ,
        ),
        file.reliable() ==> outcome_matches(
            r,
            check_layer_file(file.contents(), expected@, strict),
        ),
        file.reliable() ==> (r matches Ok((blk, index)) ==> check_layer_file(
            file.contents(),
            expected@,
            strict,
        ) matches Ok((actual, m)) && actual.index_start_blk == blk && index@ == m),
{
    let page = match file.read_blk(0) {
        Ok(page) => page,
        Err(_) => {
            return Err(LayerError::Io);
        },
    };
    let actual = match read_summary(page.as_slice(), expected, strict) {
        Ok(summary) => summary,
        Err(e) => {
            return Err(e);
        },
    };
    let page_sz = PAGE_SZ as u64;
    let offset = actual.index_start_blk as u64 * page_sz;
    let tail = match file.read_tail(offset) {
        Ok(tail) => tail,
        Err(_) => {
            return Err(LayerError::Io);
        },
    };
    match read_index(tail.as_slice(), &expected.key_range, offset) {
        Ok(index) => Ok((actual.index_start_blk, index)),
        Err(e) => Err(e),
    }
}

/// `str::ends_with` with a string as the pattern: whether `text` ends with
/// the characters of `suffix`.
#[verifier::external_body]
fn str_ends_with(text: &str, suffix: &str) -> (b: bool)
    ensures
        b == ends_with(text@, suffix@),
{
    text.ends_with(suffix)
}

/// Whether `text` ends with `suffix`.
pub open spec fn ends_with(text: Seq<char>, suffix: Seq<char>) -> bool {
    text.len() >= suffix.len() && text.subrange(text.len() - suffix.len(), text.len() as int)
        == suffix
}

/// Whether the file at `path` is named `name`: whether `path` is `name`, or
/// ends with `name` behind a `/`.
pub open spec fn path_has_name(path: Seq<char>, name: Seq<char>) -> bool {
    path == name || ends_with(path, "/"@ + name)
}

/// What has to be done next before a layer can answer lookups.
#[derive(Clone, Copy, Debug, PartialEq, Eq, Structural)]
pub enum LoadStep {
    /// Nothing: the index is in memory.
    Ready,
    /// The file has to be opened and a reader attached.
    OpenFile,
    /// The index has to be read through the attached reader.
    ReadIndex,
}

/// What a layer holds of its file in memory.
pub struct ImageLayerInner<R: BlockReader> {
    /// Whether the index has been read into memory.
    loaded: bool,
    /// The blob of each key. Empty while the index is not in memory.
    index: Index,
    /// The number of the block at which the index starts in the file.
    index_start_blk: u32,
    /// The reader of the file, once one was attached.
    file: Option<R>,
}

impl<R: BlockReader> ImageLayerInner<R> {
    /// Whether the index is in memory.
    pub closed spec fn loaded(&self) -> bool {
        self.loaded
    }

    /// The index in memory.
    pub closed spec fn index(&self) -> Map<Seq<u8>, BlobRef> {
        self.index@
    }

    /// The block at which the index starts, as last read or computed.
    pub closed spec fn index_start_blk(&self) -> u32 {
        self.index_start_blk
    }

    /// The reader attached.
    pub closed spec fn file(&self) -> Option<R> {
        self.file
    }

    /// The state of a layer of which nothing is in memory.
    pub fn new(index_start_blk: u32) -> (inner: ImageLayerInner<R>)
        ensures
            !inner.loaded(),
            inner.index() == Map::<Seq<u8>, BlobRef>::empty(),
            inner.index_start_blk() == index_start_blk,
            inner.file() is None,
    {
        ImageLayerInner { loaded: false, index: Index::new(), index_start_blk, file: None }
    }
}

/// An image layer: all values of the keys of one range as of one LSN, held
/// in one file.
///
/// The layer is made without looking at the file. The index of the file is
/// read into memory when a lookup first needs it, and can be dropped again.
pub struct ImageLayer<R: BlockReader> {
    path_or_conf: PathOrConf,
    tenantid: ZTenantId,
    timelineid: ZTimelineId,
    key_range: Range<Key>,
    /// The layer holds the values as of this LSN.
    lsn: Lsn,
    inner: ImageLayerInner<R>,
}

impl<R: BlockReader> ImageLayer<R> {
    /// The tenant that the layer belongs to.
    pub closed spec fn tenantid(&self) -> ZTenantId {
        self.tenantid
    }

    /// The timeline that the layer belongs to.
    pub closed spec fn timelineid(&self) -> ZTimelineId {
        self.timelineid
    }

    /// The keys that the layer covers; the end is exclusive.
    pub closed spec fn key_range(&self) -> Range<Key> {
        self.key_range
    }

    /// The LSN that the layer holds the values of.
    pub closed spec fn lsn(&self) -> Lsn {
        self.lsn
    }

    /// Whether the index is in memory.
    pub closed spec fn loaded(&self) -> bool {
        self.inner.loaded()
    }

    /// The index in memory.
    pub closed spec fn index(&self) -> Map<Seq<u8>, BlobRef> {
        self.inner.index()
    }

    /// The block at which the index starts, as last read or computed.
    pub closed spec fn index_start_blk(&self) -> u32 {
        self.inner.index_start_blk()
    }

    /// The reader attached to the layer.
    pub closed spec fn file(&self) -> Option<R> {
        self.inner.file()
    }

    /// The path given outright, where the layer was made for a path.
    pub closed spec fn given_path(&self) -> Option<Seq<char>> {
        match self.path_or_conf {
            PathOrConf::Path(path) => Some(path@),
            PathOrConf::Conf(_) => None,
        }
    }

    /// The working directory of the settings, where the layer was made from
    /// settings.
    pub closed spec fn workdir(&self) -> Option<Seq<char>> {
        match self.path_or_conf {
            PathOrConf::Path(_) => None,
            PathOrConf::Conf(conf) => Some(conf.workdir@),
        }
    }

    /// Whether the summary of the file must agree with the layer. It must
    /// where the layer was made from settings.
    pub open spec fn strict(&self) -> bool {
        self.workdir() is Some
    }

    /// The summary that the file of the layer should hold, but for the index
    /// start, which only the file tells.
    pub open spec fn expected_summary(&self) -> SummaryView {
        SummaryView {
            magic: IMAGE_FILE_MAGIC,
            format_version: STORAGE_FORMAT_VERSION,
            tenantid: self.tenantid()@,
            timelineid: self.timelineid()@,
            key_start: self.key_range().start@,
            key_end: self.key_range().end@,
            lsn: self.lsn().0,
            index_start_blk: 0,
        }
    }

    /// Whether what is in memory is in order. While the layer is not
    /// loaded, there is no index. While it is, a reader is attached, the
    /// index starts behind the first page, every key of the index lies in
    /// the key range, and every blob starts before the index. Where the
    /// reader is reliable, the index and the index start are those of its
    /// file.
    pub open spec fn wf(&self) -> bool {
        if self.loaded() {
            &&& self.file() matches Some(f)
            &&& self.index_start_blk() >= 1
            &&& index_in_bounds(
                self.index(),
                self.key_range().start@,
                self.key_range().end@,
                self.index_start_blk() * PAGE_SZ,
            )
            &&& f.reliable() ==> {
                &&& check_layer_file(f.contents(), self.expected_summary(), self.strict())
                    matches Ok((actual, index))
                &&& self.index() == index
                &&& self.index_start_blk() == actual.index_start_blk
            }
        } else {
            self.index() == Map::<Seq<u8>, BlobRef>::empty()
        }
    }

    /// Whether `other` is the same layer with the same reader attached,
    /// whatever either holds in memory.
    pub open spec fn same_layer(&self, other: &ImageLayer<R>) -> bool {
        &&& self.tenantid() == other.tenantid()
        &&& self.timelineid() == other.timelineid()
        &&& self.key_range() == other.key_range()
        &&& self.lsn() == other.lsn()
        &&& self.given_path() == other.given_path()
        &&& self.workdir() == other.workdir()
        &&& self.file() == other.file()
    }

    /// What reading the index of this layer owes: the summary and the index
    /// of the file of the attached reader, or the reason why the file is no
    /// such layer, or a failure of the storage where no reader is attached.
    pub open spec fn load_owed(&self) -> Result<(SummaryView, Map<Seq<u8>, BlobRef>), LayerError> {
        match self.file() {
            Some(f) => check_layer_file(f.contents(), self.expected_summary(), self.strict()),
            None => Err(LayerError::Io),
        }
    }

    /// What a lookup of `key` in this layer owes: the outcome of looking the
    /// key up in the file of the attached reader, or a failure of the
    /// storage where no reader is attached.
    pub open spec fn lookup_owed(&self, key: Seq<u8>) -> Result<Option<Seq<u8>>, LayerError> {
        match self.file() {
            Some(f) => layer_lookup(f.contents(), self.expected_summary(), self.strict(), key),
            None => Err(LayerError::Io),
        }
    }

    /// The layer of the file named `filename` in the timeline `timelineid`
    /// of the tenant `tenantid`. Nothing of the file is in memory, and no
    /// reader is attached.
    pub fn new(
        conf: &'static PageServerConf,
        timelineid: ZTimelineId,
        tenantid: ZTenantId,
        filename: &ImageFileName,
    ) -> (layer: ImageLayer<R>)
        ensures
            layer.wf(),
            !layer.loaded(),
            layer.file() is None,
            layer.index_start_blk() == 0,
            layer.workdir() == Some(conf.workdir@),
            layer.given_path() is None,
            layer.tenantid() == tenantid,
            layer.timelineid() == timelineid,
            layer.key_range() == filename.key_range,
            layer.lsn() == filename.lsn,
    {
        ImageLayer {
            path_or_conf: PathOrConf::Conf(conf),
            timelineid,
            tenantid,
            key_range: filename.key_range.start..filename.key_range.end,
            lsn: filename.lsn,
            inner: ImageLayerInner::new(0),
        }
    }

    /// The layer of the file at `path`, of which `summary_page` is the
    /// first page. What layer it is, the summary in that page tells.
    ///
    /// Fails where the page holds no summary of this format.
    pub fn new_for_path(path: &str, summary_page: &[u8]) -> (r: Result<ImageLayer<R>, LayerError>)
        ensures
            r matches Ok(layer) ==> {
                &&& parse_summary(summary_page@) matches Some(summary)
                &&& layer.expected_summary() == summary.with_index_start(0)
                &&& layer.given_path() == Some(path@)
                &&& layer.workdir() is None
                &&& layer.wf()
                &&& !layer.loaded()
                &&& layer.file() is None
                &&& layer.index_start_blk() == 0
            },
            r matches Err(e) ==> e == LayerError::Format && parse_summary(summary_page@) is None,
    {
        let summary = match Summary::des_prefix(summary_page) {
            Ok(summary) => summary,
            Err(_) => {
                return Err(LayerError::Format);
            },
        };
        let layer = ImageLayer {
            path_or_conf: PathOrConf::Path(path.to_owned()),
            timelineid: summary.timelineid,
            tenantid: summary.tenantid,
            key_range: summary.key_range,
            lsn: summary.lsn,
            inner: ImageLayerInner::new(0),
        };
        assert(layer.expected_summary() =~= summary@.with_index_start(0));
        Ok(layer)
    }

    /// Whether the index is in memory.
    pub fn is_loaded(&self) -> (b: bool)
        ensures
            b == self.loaded(),
    {
        self.inner.loaded
    }

    /// Whether a reader is attached.
    pub fn has_file(&self) -> (b: bool)
        ensures
            b == self.file() is Some,
    {
        self.inner.file.is_some()
    }

    /// What has to be done next before the layer can answer lookups. A
    /// reader that is attached is used again: the file is opened only where
    /// none is.
    pub fn load_step(&self) -> (step: LoadStep)
        ensures
            step == if self.loaded() {
                LoadStep::Ready
            } else if self.file() is None {
                LoadStep::OpenFile
            } else {
                LoadStep::ReadIndex
            },
    {
        if self.inner.loaded {
            LoadStep::Ready
        } else if self.inner.file.is_none() {
            LoadStep::OpenFile
        } else {
            LoadStep::ReadIndex
        }
    }

    /// Attaches `file` as the reader of the layer's file. What was in memory
    /// of the file of an earlier reader is dropped.
    pub fn set_file(&mut self, file: R)
        ensures
            final(self).wf(),
            !final(self).loaded(),
            final(self).file() == Some(file),
            final(self).index_start_blk() == old(self).index_start_blk(),
            final(self).tenantid() == old(self).tenantid(),
            final(self).timelineid() == old(self).timelineid(),
            final(self).key_range() == old(self).key_range(),
            final(self).lsn() == old(self).lsn(),
            final(self).given_path() == old(self).given_path(),
            final(self).workdir() == old(self).workdir(),
    {
        self.inner.loaded = false;
        self.inner.index.clear();
        self.inner.file = Some(file);
    }

    /// The summary that the file of the layer should hold, with 0 for the
    /// index start.
    pub fn summary(&self) -> (summary: Summary)
        ensures
            summary@ == self.expected_summary(),
            summary == (Summary {
                magic: IMAGE_FILE_MAGIC,
                format_version: STORAGE_FORMAT_VERSION,
                tenantid: self.tenantid(),
                timelineid: self.timelineid(),
                key_range: self.key_range(),
                lsn: self.lsn(),
                index_start_blk: 0,
            }),
    {
        Summary {
            magic: IMAGE_FILE_MAGIC,
            format_version: STORAGE_FORMAT_VERSION,
            tenantid: self.tenantid,
            timelineid: self.timelineid,
            key_range: self.key_range.start..self.key_range.end,
            lsn: self.lsn,
            index_start_blk: 0,
        }
    }

    /// Reads the summary and the index from the file and keeps the index in
    /// memory.
    ///
    /// Fails where no reader is attached, where the storage fails, and where
    /// the file is not this layer. After a failure the layer is not loaded.
    pub fn load_inner(&mut self) -> (r: Result<(), LayerError>)
        ensures
            final(self).wf(),
            final(self).same_layer(old(self)),
            final(self).loaded() == r is Ok,
            r matches Err(e) ==> e == LayerError::Io || e == LayerError::Format,
            r is Err ==> final(self).index_start_blk() == old(self).index_start_blk(),
            old(self).file() is None ==> r == Err::<(), LayerError>(LayerError::Io),
            old(self).reliable() ==> outcome_matches(r, old(self).load_owed()),
    {
        let expected = self.summary();
        let strict = match &self.path_or_conf {
            PathOrConf::Conf(_) => true,
            PathOrConf::Path(_) => false,
        };
        self.inner.loaded = false;
        self.inner.index.clear();
        let read = match &self.inner.file {
            Some(file) => read_layer(file, &expected, strict),
            None => {
                return Err(LayerError::Io);
            },
        };
        match read {
            Ok((index_start_blk, index)) => {
                self.inner.index_start_blk = index_start_blk;
                self.inner.index = index;
                self.inner.loaded = true;
                Ok(())
            },
            Err(e) => Err(e),
        }
    }

    /// Makes sure that the index is in memory: reads it where it is not.
    pub fn load(&mut self) -> (r: Result<(), LayerError>)
        requires
            old(self).wf(),
        ensures
            final(self).wf(),
            final(self).same_layer(old(self)),
            final(self).loaded() == r is Ok,
            old(self).loaded() ==> r is Ok && *final(self) == *old(self),
            r matches Err(e) ==> e == LayerError::Io || e == LayerError::Format,
            r is Err ==> final(self).index_start_blk() == old(self).index_start_blk(),
            old(self).file() is None && !old(self).loaded() ==> r == Err::<(), LayerError>(
                LayerError::Io,
            ),
            old(self).reliable() ==> outcome_matches(r, old(self).load_owed()),
    {
        if self.inner.loaded {
            Ok(())
        } else {
            self.load_inner()
        }
    }

    /// Whether a reader is attached and reliable.
    pub open spec fn reliable(&self) -> bool {
        self.file() matches Some(f) && f.reliable()
    }

    /// Looks `key` up in the index in memory and reads its value from the
    /// file. Returns `None`, and does nothing, while the index is not in
    /// memory.
    ///
    /// For a key that the index does not hold the answer is `Missing`: the
    /// key does not exist as of the LSN of the layer.
    pub fn get_value_if_loaded(
        &self,
        key: Key,
        lsn_range: Range<Lsn>,
        reconstruct_state: &mut ValueReconstructState,
    ) -> (r: Option<Result<ValueReconstructResult, LayerError>>)
        requires
            self.wf(),
            range_contains(self.key_range().start@, self.key_range().end@, key@),
            lsn_range.end.0 > self.lsn().0,
        ensures
            r is Some == self.loaded(),
            r is None ==> *final(reconstruct_state) == *old(reconstruct_state),
            r matches Some(res) ==> value_outcome(
                res,
                *old(reconstruct_state),
                *final(reconstruct_state),
                self.lsn(),
                self.lookup_owed(key@),
                self.reliable(),
            ),
            self.loaded() ==> (!self.index().dom().contains(key@) <==> r == Some(
                Ok::<ValueReconstructResult, LayerError>(ValueReconstructResult::Missing),
            )),
    {
        if !self.inner.loaded {
            return None;
        }
        let blob_ref = match self.inner.index.find(&key) {
            Some(blob_ref) => blob_ref,
            None => {
                return Some(Ok(ValueReconstructResult::Missing));
            },
        };
        let file = match &self.inner.file {
            Some(file) => file,
            None => {
                return Some(Err(LayerError::Io));
            },
        };
        match read_blob(file, blob_ref.pos()) {
            Ok(buf) => {
                let value = bytes_from_vec(buf);
                reconstruct_state.img = Some((self.lsn, value));
                Some(Ok(ValueReconstructResult::Complete))
            },
            Err(_) => Some(Err(LayerError::Io)),
        }
    }

    /// Looks `key` up in the layer, reading the index into memory first
    /// where it is not there.
    ///
    /// The layer speaks for every key of its range: for a key that it does
    /// not hold the answer is `Missing`, never `Continue`.
    pub fn get_value_reconstruct_data(
        &mut self,
        key: Key,
        lsn_range: Range<Lsn>,
        reconstruct_state: &mut ValueReconstructState,
    ) -> (r: Result<ValueReconstructResult, LayerError>)
        requires
            old(self).wf(),
            range_contains(old(self).key_range().start@, old(self).key_range().end@, key@),
            lsn_range.end.0 > old(self).lsn().0,
        ensures
            final(self).wf(),
            final(self).same_layer(old(self)),
            r is Ok ==> final(self).loaded(),
            old(self).loaded() ==> *final(self) == *old(self),
            old(self).file() is None && !old(self).loaded() ==> r == Err::<
                ValueReconstructResult,
                LayerError,
            >(LayerError::Io),
            value_outcome(
                r,
                *old(reconstruct_state),
                *final(reconstruct_state),
                old(self).lsn(),
                old(self).lookup_owed(key@),
                old(self).reliable(),
            ),
    {
        match self.load() {
            Ok(()) => {},
            Err(e) => {
                return Err(e);
            },
        }
        match self.get_value_if_loaded(key, lsn_range, reconstruct_state) {
            Some(res) => res,
            None => Err(LayerError::Io),
        }
    }

    /// Drops the index from memory where `draw` is at most `UNLOAD_GATE`,
    /// and tells whether it did. The reader stays attached.
    pub fn unload_with(&mut self, draw: u32) -> (dropped: bool)
        requires
            old(self).wf(),
        ensures
            final(self).wf(),
            final(self).same_layer(old(self)),
            final(self).index_start_blk() == old(self).index_start_blk(),
            dropped == (draw <= UNLOAD_GATE),
            dropped ==> !final(self).loaded(),
            !dropped ==> *final(self) == *old(self),
    {
        if draw > UNLOAD_GATE {
            return false;
        }
        self.inner.loaded = false;
        self.inner.index.clear();
        true
    }

    /// Drops the index from memory on about one call in ten, to save
    /// memory. This is a hint: whether the index is dropped is left to
    /// chance, and what the layer answers does not depend on it.
    pub fn unload(&mut self)
        requires
            old(self).wf(),
        ensures
            final(self).wf(),
            final(self).same_layer(old(self)),
            final(self).index_start_blk() == old(self).index_start_blk(),
            !final(self).loaded() || *final(self) == *old(self),
    {
        let draw = random_u32();
        self.unload_with(draw);
    }

    /// What reading every value of this layer owes: the outcome of reading
    /// them from the file of the attached reader, or a failure of the
    /// storage where no reader is attached.
    pub open spec fn items_owed(&self) -> Result<(), LayerError> {
        match self.file() {
            Some(f) => layer_items_owed(f.contents(), self.expected_summary(), self.strict()),
            None => Err(LayerError::Io),
        }
    }

    /// Every key of the layer with the LSN of the layer and the value of
    /// the key, in the order in which the values lie in the file. Reads the
    /// index into memory first where it is not there.
    #[verifier::loop_isolation(false)]
    pub fn iter(&mut self) -> (r: Result<Vec<(Key, Lsn, Vec<u8>)>, LayerError>)
        requires
            old(self).wf(),
        ensures
            final(self).wf(),
            final(self).same_layer(old(self)),
            r is Ok ==> final(self).loaded(),
            r matches Err(e) ==> e == LayerError::Io || e == LayerError::Format,
            r matches Ok(items) ==> items_follow_index(
                items@,
                final(self).index(),
                old(self).lsn(),
            ),
            old(self).reliable() ==> outcome_matches(r, old(self).items_owed()),
            old(self).reliable() ==> (r matches Ok(items) ==> old(self).file() matches Some(f)
                && items_of_layer(items@, f.contents(), final(self).index(), old(self).lsn())),
    {
        match self.load() {
            Ok(()) => {},
            Err(e) => {
                return Err(e);
            },
        }
        let file = match &self.inner.file {
            Some(file) => file,
            None => {
                return Err(LayerError::Io);
            },
        };
        let ghost index = self.index();
        let ghost view = block_view(file.contents());
        let order = self.inner.index.by_offset();
        let ghost ov = entry_views(order@);
        let mut items: Vec<(Key, Lsn, Vec<u8>)> = Vec::new();
        let mut i: usize = 0;
        while i < order.len()
            invariant
                i <= order@.len(),
                items@.len() == i,
                forall|j: int|
                    0 <= j < i ==> {
                        &&& (#[trigger] items@[j]).0@ == ov[j].0
                        &&& items@[j].1 == self.lsn()
                        &&& file.reliable() ==> blob_at(view, ov[j].1.spec_pos() as int) == Some(
                            items@[j].2@,
                        )
                    },
            decreases order@.len() - i,
        {
            let entry = order[i];
            assert(ov[i as int] == (entry.key@, entry.blob_ref));
            proof {
                lemma_entries_map_at(ov, i as int);
            }
            let buf = match read_blob(file, entry.blob_ref.pos()) {
                Ok(buf) => buf,
                Err(_) => {
                    return Err(LayerError::Io);
                },
            };
            items.push((entry.key, self.lsn, buf));
            i += 1;
        }
        proof {
            let its = items@;
            assert forall|j: int| 0 <= j < its.len() implies index.dom().contains(
                (#[trigger] its[j]).0@,
            ) && index[its[j].0@] == ov[j].1 by {
                lemma_entries_map_at(ov, j);
            }
            assert forall|a: int, b: int|
                #![trigger its[a], its[b]]
                0 <= a < b < its.len() implies its[a].0@ != its[b].0@ && index[its[a].0@].spec_pos()
                <= index[its[b].0@].spec_pos() by {
                assert(ov[a].0 != ov[b].0);
                assert(ov[a].1.spec_pos() <= ov[b].1.spec_pos());
            }
            assert forall|k: Seq<u8>| #[trigger] index.dom().contains(k) implies exists|j: int|
                0 <= j < its.len() && (#[trigger] its[j]).0@ == k by {
                let j = place_of(ov, k);
                assert(its[j].0@ == k);
            }
            if file.reliable() {
                assert forall|k: Seq<u8>| #[trigger] index.dom().contains(k) implies blob_at(
                    view,
                    index[k].spec_pos() as int,
                ) is Some by {
                    let j = place_of(ov, k);
                    assert(its[j].0@ == k);
                }
            }
        }
        Ok(items)
    }

    /// What a dump of the layer lists behind its heading: nothing where
    /// `verbose` is not set, else every entry of the index, in the order in
    /// which the values lie in the file. Reads the index into memory first
    /// where that is needed and it is not there.
    pub fn dump(&mut self, verbose: bool) -> (r: Result<Vec<IndexEntry>, LayerError>)
        requires
            old(self).wf(),
        ensures
            final(self).wf(),
            final(self).same_layer(old(self)),
            !verbose ==> *final(self) == *old(self),
            !verbose ==> (r matches Ok(entries) && entries@.len() == 0),
            r matches Err(e) ==> e == LayerError::Io || e == LayerError::Format,
            verbose ==> {
                &&& final(self).loaded() == r is Ok
                &&& old(self).loaded() ==> r is Ok
                &&& old(self).reliable() ==> outcome_matches(r, old(self).load_owed())
                &&& r matches Ok(entries) ==> {
                    &&& sorted_by_offset(entry_views(entries@))
                    &&& distinct_keys(entry_views(entries@))
                    &&& entries_map(entry_views(entries@)) == final(self).index()
                }
            },
    {
        if !verbose {
            return Ok(Vec::new());
        }
        match self.load() {
            Ok(()) => {},
            Err(e) => {
                return Err(e);
            },
        }
        Ok(self.inner.index.by_offset())
    }

    /// Always `false`: an image layer holds whole values, not changes.
    pub fn is_incremental(&self) -> (b: bool)
        ensures
            !b,
    {
        false
    }

    /// Always `false`: an image layer lies in a file.
    pub fn is_in_memory(&self) -> (b: bool)
        ensures
            !b,
    {
        false
    }

    /// The tenant that the layer belongs to.
    pub fn get_tenant_id(&self) -> (id: ZTenantId)
        ensures
            id == self.tenantid(),
    {
        self.tenantid
    }

    /// The timeline that the layer belongs to.
    pub fn get_timeline_id(&self) -> (id: ZTimelineId)
        ensures
            id == self.timelineid(),
    {
        self.timelineid
    }

    /// The keys that the layer covers; the end is exclusive.
    pub fn get_key_range(&self) -> (range: Range<Key>)
        ensures
            range == self.key_range(),
    {
        self.key_range.start..self.key_range.end
    }

    /// The LSN that the layer holds the values of.
    pub fn get_lsn(&self) -> (lsn: Lsn)
        ensures
            lsn == self.lsn(),
    {
        self.lsn
    }

    /// The LSNs that the layer covers: its own LSN alone. The end is
    /// exclusive.
    pub fn get_lsn_range(&self) -> (range: Range<Lsn>)
        requires
            self.lsn().0 < u64::MAX,
        ensures
            range.start == self.lsn(),
            range.end.0 == self.lsn().0 + 1,
    {
        self.lsn..Lsn(self.lsn.0 + 1)
    }

    /// What the name of the layer's file tells.
    pub fn layer_name(&self) -> (name: ImageFileName)
        ensures
            name.key_range == self.key_range(),
            name.lsn == self.lsn(),
    {
        ImageFileName { key_range: self.key_range.start..self.key_range.end, lsn: self.lsn }
    }

    /// The name of the layer's file.
    pub fn filename(&self) -> (name: String)
        ensures
            name@ == self.filename_text(),
    {
        self.layer_name().to_string()
    }

    /// The path of the file named `fname`: the path given outright, or the
    /// file `fname` in the directory of the timeline.
    pub fn path_for(
        path_or_conf: &PathOrConf,
        timelineid: ZTimelineId,
        tenantid: ZTenantId,
        fname: &ImageFileName,
    ) -> (path: String)
        ensures
            path@ == match *path_or_conf {
                PathOrConf::Path(given) => given@,
                PathOrConf::Conf(conf) => layer_path_text(
                    conf.workdir@,
                    tenantid@,
                    timelineid@,
                    image_file_name(fname.key_range.start@, fname.key_range.end@, fname.lsn.0),
                ),
            },
    {
        match path_or_conf {
            PathOrConf::Path(path) => path.clone(),
            PathOrConf::Conf(conf) => conf.layer_path(&timelineid, &tenantid, fname),
        }
    }

    /// Whether the file of the layer is named as the layer is. It is where
    /// the layer was made from settings. Where it was made for a path, that
    /// path may name the file otherwise; the layer can be read all the same.
    pub fn path_names_layer(&self) -> (b: bool)
        ensures
            b == path_has_name(self.path_text(), self.filename_text()),
    {
        let name = self.filename();
        match &self.path_or_conf {
            PathOrConf::Path(path) => {
                if *path == name {
                    true
                } else {
                    let mut tail = String::from_str("/");
                    tail.append(name.as_str());
                    str_ends_with(path.as_str(), tail.as_str())
                }
            },
            PathOrConf::Conf(conf) => {
                proof {
                    let dir = timeline_path_text(
                        conf.workdir@,
                        self.tenantid()@,
                        self.timelineid()@,
                    );
                    let tail = "/"@ + self.filename_text();
                    let path = self.path_text();
                    assert(path =~= dir + tail);
                    assert(path.subrange(path.len() - tail.len(), path.len() as int) =~= tail);
                }
                true
            },
        }
    }

    /// The name of the layer's file.
    pub open spec fn filename_text(&self) -> Seq<char> {
        image_file_name(self.key_range().start@, self.key_range().end@, self.lsn().0)
    }

    /// The path of the layer's file.
    pub fn path(&self) -> (path: String)
        ensures
            path@ == self.path_text(),
    {
        Self::path_for(&self.path_or_conf, self.timelineid, self.tenantid, &self.layer_name())
    }

    /// The path of the layer's file.
    pub open spec fn path_text(&self) -> Seq<char> {
        match self.given_path() {
            Some(given) => given,
            None => layer_path_text(
                self.workdir().unwrap(),
                self.tenantid()@,
                self.timelineid()@,
                self.filename_text(),
            ),
        }
    }
}

impl<R: BlockReader> From<&ImageLayer<R>> for Summary {
    /// The summary that the file of `layer` should hold, with 0 for the
    /// index start.
    fn from(layer: &ImageLayer<R>) -> (summary: Summary) {
        layer.summary()
    }
}

impl<R: BlockReader> vstd::std_specs::convert::FromSpecImpl<&ImageLayer<R>> for Summary {
    open spec fn obeys_from_spec() -> bool {
        true
    }

    open spec fn from_spec(layer: &ImageLayer<R>) -> Summary {
        Summary {
            magic: IMAGE_FILE_MAGIC,
            format_version: STORAGE_FORMAT_VERSION,
            tenantid: layer.tenantid(),
            timelineid: layer.timelineid(),
            key_range: layer.key_range(),
            lsn: layer.lsn(),
            index_start_blk: 0,
        }
    }
}

/// Builds the file of a new image layer.
///
/// 1. Make the writer with `new`.
/// 2. Hand it each key of the range that has a value, with the value, by
///    `put_image`.
/// 3. Call `finish` for the bytes of the file and the layer that reads it.
pub struct ImageLayerWriter {
    conf: &'static PageServerConf,
    path: String,
    timelineid: ZTimelineId,
    tenantid: ZTenantId,
    key_range: Range<Key>,
    lsn: Lsn,
    index: Index,
    blob_writer: BlobWriter,
}

impl ImageLayerWriter {
    /// The tenant that the layer belongs to.
    pub closed spec fn tenantid(&self) -> ZTenantId {
        self.tenantid
    }

    /// The timeline that the layer belongs to.
    pub closed spec fn timelineid(&self) -> ZTimelineId {
        self.timelineid
    }

    /// The keys that the layer covers; the end is exclusive.
    pub closed spec fn key_range(&self) -> Range<Key> {
        self.key_range
    }

    /// The LSN that the layer holds the values of.
    pub closed spec fn lsn(&self) -> Lsn {
        self.lsn
    }

    /// The working directory of the settings.
    pub closed spec fn workdir(&self) -> Seq<char> {
        self.conf.workdir@
    }

    /// The path at which the file belongs.
    pub closed spec fn path_text(&self) -> Seq<char> {
        self.path@
    }

    /// The entries of the index so far, in the order of their keys.
    pub closed spec fn entries(&self) -> Seq<(Seq<u8>, BlobRef)> {
        self.index.entries()
    }

    /// The index so far.
    pub open spec fn index(&self) -> Map<Seq<u8>, BlobRef> {
        entries_map(self.entries())
    }

    /// The offset at which the values start.
    pub closed spec fn values_start(&self) -> nat {
        self.blob_writer.start()
    }

    /// The values written so far, as they lie in the file.
    pub closed spec fn values(&self) -> Seq<u8> {
        self.blob_writer.written()
    }

    /// The file so far: a page of zeros where the summary will stand, then
    /// the values.
    pub open spec fn image(&self) -> Seq<u8> {
        zeros(PAGE_SZ as int) + self.values()
    }

    /// The value that was put for each key.
    pub open spec fn images(&self) -> Map<Seq<u8>, Seq<u8>> {
        Map::new(
            |k: Seq<u8>| self.index().dom().contains(k),
            |k: Seq<u8>| blob_at(self.image(), self.index()[k].spec_pos() as int).unwrap(),
        )
    }

    /// The summary of the file, once the values are complete.
    pub open spec fn summary(&self) -> SummaryView {
        SummaryView {
            magic: IMAGE_FILE_MAGIC,
            format_version: STORAGE_FORMAT_VERSION,
            tenantid: self.tenantid()@,
            timelineid: self.timelineid()@,
            key_start: self.key_range().start@,
            key_end: self.key_range().end@,
            lsn: self.lsn().0,
            index_start_blk: index_start_of(self.values().len() as int) as u32,
        }
    }

    /// The file that `finish` gives for the writer as it stands.
    pub open spec fn file(&self) -> Seq<u8> {
        layer_file(self.summary(), self.values(), self.entries())
    }

    /// Whether a value of `len` bytes can still be put.
    pub open spec fn has_room(&self, len: nat) -> bool {
        len < MAX_BLOB_LEN && self.image().len() + blob_record(zeros(len as int)).len()
            <= MAX_VALUES_END
    }

    /// Whether the writer is in order: the values start behind the first
    /// page and end where a block number can still tell the start of the
    /// index; every key of the index lies in the key range; and every entry
    /// of the index is marked as an image and points at a blob among the
    /// values, behind the first page.
    pub open spec fn wf(&self) -> bool {
        &&& self.values_start() == PAGE_SZ
        &&& self.image().len() <= MAX_VALUES_END
        &&& strictly_sorted(self.entries())
        &&& self.entries().len() <= usize::MAX
        &&& forall|k: Seq<u8>| #[trigger]
            self.index().dom().contains(k) ==> {
                &&& range_contains(self.key_range().start@, self.key_range().end@, k)
                &&& self.index()[k].spec_will_init()
                &&& self.index()[k].spec_pos() >= PAGE_SZ
                &&& blob_at(self.image(), self.index()[k].spec_pos() as int) is Some
            }
    }

    /// Every key of the index of a writer has the width of a key.
    pub proof fn lemma_entries_have_width(&self)
        ensures
            crate::index::keys_have_width(self.entries()),
    {
        self.index.lemma_keys_have_width();
    }

    /// A writer for the layer of the keys of `key_range` at `lsn` in the
    /// timeline `timelineid` of the tenant `tenantid`. It holds no value
    /// yet.
    pub fn new(
        conf: &'static PageServerConf,
        timelineid: ZTimelineId,
        tenantid: ZTenantId,
        key_range: &Range<Key>,
        lsn: Lsn,
    ) -> (writer: ImageLayerWriter)
        ensures
            writer.wf(),
            writer.tenantid() == tenantid,
            writer.timelineid() == timelineid,
            writer.key_range() == *key_range,
            writer.lsn() == lsn,
            writer.workdir() == conf.workdir@,
            writer.path_text() == layer_path_text(
                conf.workdir@,
                tenantid@,
                timelineid@,
                image_file_name(key_range.start@, key_range.end@, lsn.0),
            ),
            writer.values() == Seq::<u8>::empty(),
            writer.index() == Map::<Seq<u8>, BlobRef>::empty(),
            writer.images() == Map::<Seq<u8>, Seq<u8>>::empty(),
    {
        let name = ImageFileName { key_range: key_range.start..key_range.end, lsn };
        let path = conf.layer_path(&timelineid, &tenantid, &name);
        let writer = ImageLayerWriter {
            conf,
            path,
            timelineid,
            tenantid,
            key_range: key_range.start..key_range.end,
            lsn,
            index: Index::new(),
            blob_writer: BlobWriter::new(PAGE_SZ as u64),
        };
        assert(writer.index() =~= Map::<Seq<u8>, BlobRef>::empty());
        assert(writer.images() =~= Map::<Seq<u8>, Seq<u8>>::empty());
        writer
    }

    /// The path at which the file belongs.
    pub fn path(&self) -> (path: String)
        ensures
            path@ == self.path_text(),
    {
        self.path.clone()
    }

    /// Whether a value was put for `key`.
    pub fn contains_key(&self, key: &Key) -> (b: bool)
        ensures
            b == self.index().dom().contains(key@),
    {
        self.index.contains_key(key)
    }

    /// Puts the value `img` for `key`.
    ///
    /// No value may have been put for `key` before. A key outside the key
    /// range is refused with `OutOfRange`, and a value for which there is no
    /// room with `Io`; the writer is then as it was.
    pub fn put_image(&mut self, key: Key, img: &[u8]) -> (r: Result<(), LayerError>)
        requires
            old(self).wf(),
            !old(self).index().dom().contains(key@),
        ensures
            final(self).wf(),
            final(self).tenantid() == old(self).tenantid(),
            final(self).timelineid() == old(self).timelineid(),
            final(self).key_range() == old(self).key_range(),
            final(self).lsn() == old(self).lsn(),
            final(self).workdir() == old(self).workdir(),
            final(self).path_text() == old(self).path_text(),
            r matches Ok(()) ==> {
                &&& range_contains(old(self).key_range().start@, old(self).key_range().end@, key@)
                &&& old(self).has_room(img@.len())
                &&& final(self).values() == old(self).values() + blob_record(img@)
                &&& final(self).index() == old(self).index().insert(
                    key@,
                    BlobRef((2 * old(self).image().len() + 1) as u64),
                )
                &&& final(self).images() == old(self).images().insert(key@, img@)
            },
            r matches Err(e) ==> {
                &&& final(self).values() == old(self).values()
                &&& final(self).entries() == old(self).entries()
                &&& if range_contains(
                    old(self).key_range().start@,
                    old(self).key_range().end@,
                    key@,
                ) {
                    e == LayerError::Io && !old(self).has_room(img@.len())
                } else {
                    e == LayerError::OutOfRange
                }
            },
    {
        if !key_range_contains(&self.key_range, &key) {
            return Err(LayerError::OutOfRange);
        }
        let size = self.blob_writer.size();
        let len = img.len();
        if len >= MAX_BLOB_LEN {
            return Err(LayerError::Io);
        }
        let record_len: u64 = if len < 128 {
            1 + len as u64
        } else {
            4 + len as u64
        };
        proof {
            crate::bin_ser::lemma_be_digits_len(len as nat + MAX_BLOB_LEN as nat, 4);
            crate::bin_ser::lemma_be_digits_len((len + MAX_BLOB_LEN) as nat, 4);
            assert(blob_record(zeros(len as int)).len() == record_len);
            assert(blob_record(img@).len() == record_len);
        }
        if MAX_VALUES_END - size < record_len {
            return Err(LayerError::Io);
        }
        let off = match self.blob_writer.write_blob(img) {
            Ok(off) => off,
            Err(_) => {
                return Err(LayerError::Io);
            },
        };
        let blob_ref = BlobRef::new(off, true);
        let ghost before = old(self).image();
        let ghost after = self.image();
        let ghost old_index = old(self).index();
        proof {
            assert(after =~= before + blob_record(img@));
            assert(after.subrange(off as int, off + blob_record(img@).len()) =~= blob_record(img@));
            lemma_blob_round_trip(after, off as int, img@);
            assert forall|k: Seq<u8>| #[trigger] old_index.dom().contains(k) implies blob_at(
                after,
                old_index[k].spec_pos() as int,
            ) == blob_at(before, old_index[k].spec_pos() as int) by {
                lemma_blob_at_agree(before, after, old_index[k].spec_pos() as int);
            }
            crate::storage_layer::lemma_blob_ref_parts(blob_ref, BlobRef((2 * off + 1) as u64));
        }
        let entered = self.index.insert(key, blob_ref);
        proof {
            assert(self.index() == old_index.insert(key@, blob_ref));
            assert(self.images() =~= old(self).images().insert(key@, img@));
        }
        Ok(())
    }

    /// Completes the file: returns the layer, with nothing of it in memory
    /// and no reader attached, and the bytes of its file.
    pub fn finish<R: BlockReader>(self) -> (r: (ImageLayer<R>, Vec<u8>))
        requires
            self.wf(),
        ensures
            r.1@ == self.file(),
            r.0.wf(),
            !r.0.loaded(),
            r.0.file() is None,
            r.0.given_path() is None,
            r.0.index_start_blk() == self.summary().index_start_blk,
            r.0.expected_summary() == self.summary().with_index_start(0),
            r.0.tenantid() == self.tenantid(),
            r.0.timelineid() == self.timelineid(),
            r.0.key_range() == self.key_range(),
            r.0.lsn() == self.lsn(),
            r.0.workdir() == Some(self.workdir()),
    {
        let ghost values = self.values();
        let ghost end = PAGE_SZ + values.len();
        let size = self.blob_writer.size();
        let page_sz = PAGE_SZ as u64;
        let index_start_blk = ((size + page_sz - 1) / page_sz) as u32;
        assert(index_start_blk == index_start_of(values.len() as int));
        let summary = Summary {
            magic: IMAGE_FILE_MAGIC,
            format_version: STORAGE_FORMAT_VERSION,
            tenantid: self.tenantid,
            timelineid: self.timelineid,
            key_range: self.key_range.start..self.key_range.end,
            lsn: self.lsn,
            index_start_blk,
        };
        assert(summary@ =~= self.summary());
        let mut file = summary.ser();
        let ghost head = file@;
        proof {
            crate::summary::lemma_summary_len(summary@);
        }
        while file.len() < PAGE_SZ
            invariant
                head.len() <= file@.len() <= PAGE_SZ,
                file@ == head + zeros(file@.len() - head.len()),
            decreases PAGE_SZ - file@.len(),
        {
            file.push(0);
            assert(file@ =~= head + zeros(file@.len() - head.len()));
        }
        assert(file@ =~= zero_padded_page(head));
        let mut written = self.blob_writer.into_inner();
        file.append(&mut written);
        let ghost body = zero_padded_page(head) + values;
        assert(file@ =~= body + zeros(0));
        while file.len() % PAGE_SZ != 0
            invariant
                body.len() == end,
                body.len() <= file@.len(),
                file@.len() - body.len() <= gap_len(end as int),
                file@ == body + zeros(file@.len() - body.len()),
            decreases gap_len(end as int) - (file@.len() - body.len()),
        {
            file.push(0);
            assert(file@ =~= body + zeros(file@.len() - body.len()));
        }
        assert(file@.len() - body.len() == gap_len(end as int));
        let mut index_buf = self.index.ser();
        file.append(&mut index_buf);
        assert(file@ =~= self.file());
        let layer = ImageLayer {
            path_or_conf: PathOrConf::Conf(self.conf),
            timelineid: self.timelineid,
            tenantid: self.tenantid,
            key_range: self.key_range.start..self.key_range.end,
            lsn: self.lsn,
            inner: ImageLayerInner::new(index_start_blk),
        };
        assert(layer.expected_summary() =~= self.summary().with_index_start(0));
        (layer, file)
    }
}

} // verus!
