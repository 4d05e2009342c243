//! What holds of writers, their files and the layers that read them.
use crate::blob_io::{blob_at, lemma_blob_at_agree};
use crate::block_io::{block_view, page_of, BlockReader, MAX_BLOCKS, PAGE_SZ};
use crate::error::LayerError;
use crate::image_layer::{items_of_layer, ImageLayer, ImageLayerWriter};
use crate::layer_file::{check_layer_file, gap_len, index_in_bounds, index_offset, index_start_of,
    layer_items_owed, layer_lookup, zeros};
use crate::index::{index_bytes, lemma_index_round_trip, lemma_sorted_distinct};
use crate::lsn::Lsn;
use crate::repository::{range_contains, Key};
use crate::storage_layer::BlobRef;
use crate::summary::{lemma_summary_len, lemma_summary_round_trip, summary_bytes,
    zero_padded_page, SummaryView};
use vstd::prelude::*;

verus! {

/// Every key that a writer took lies in the key range of the writer.
pub proof fn lemma_accepted_keys_in_range(writer: ImageLayerWriter, key: Seq<u8>)
    requires
        writer.wf(),
        writer.images().dom().contains(key),
    ensures
        range_contains(writer.key_range().start@, writer.key_range().end@, key),
{
}

/// How the file of a writer is laid out: the summary in the first page,
/// the values behind it as the writer holds them, and the index from the
/// next page boundary on, which is where the summary says it starts. The
/// values lie in whole pages that a block number reaches.
pub proof fn lemma_file_layout(writer: ImageLayerWriter)
    requires
        writer.wf(),
    ensures
        writer.summary().index_start_blk >= 1,
        index_offset(writer.summary()) == writer.image().len() + gap_len(
            writer.image().len() as int,
        ),
        writer.file().len() == index_offset(writer.summary()) + index_bytes(writer.entries()).len(),
        page_of(writer.file(), 0) == zero_padded_page(summary_bytes(writer.summary())),
        writer.file().subrange(PAGE_SZ as int, writer.image().len() as int) == writer.values(),
        writer.file().subrange(index_offset(writer.summary()), writer.file().len() as int)
            == index_bytes(writer.entries()),
        index_offset(writer.summary()) <= block_view(writer.file()).len(),
{
    let file = writer.file();
    let summary = writer.summary();
    let values = writer.values();
    let end = PAGE_SZ + values.len();
    assert(writer.image().len() == end);
    lemma_summary_len(summary);
    let offset = end + gap_len(end as int);
    assert(offset % (PAGE_SZ as int) == 0 && offset - end < PAGE_SZ);
    let blk = index_start_of(values.len() as int);
    assert(blk * PAGE_SZ == offset);
    assert(1 <= blk < MAX_BLOCKS);
    assert(file.len() == offset + index_bytes(writer.entries()).len());
    assert(page_of(file, 0) =~= zero_padded_page(summary_bytes(summary)));
    assert(file.subrange(PAGE_SZ as int, end as int) =~= values);
    assert(file.subrange(offset, file.len() as int) =~= index_bytes(writer.entries()));
    assert(file.len() / (PAGE_SZ as nat) >= blk);
}

/// The file of a writer is the layer of the writer: read as that layer, it
/// gives the summary and the index of the writer, whether or not the summary
/// is held against the layer.
pub proof fn lemma_file_is_layer(writer: ImageLayerWriter, strict: bool)
    requires
        writer.wf(),
    ensures
        check_layer_file(writer.file(), writer.summary().with_index_start(0), strict) == Ok::<
            (SummaryView, Map<Seq<u8>, BlobRef>),
            LayerError,
        >((writer.summary(), writer.index())),
{
    let file = writer.file();
    let summary = writer.summary();
    let expected = summary.with_index_start(0);
    let es = writer.entries();
    let offset = index_offset(summary);
    lemma_file_layout(writer);
    lemma_summary_len(summary);
    let rest = zeros(PAGE_SZ - summary_bytes(summary).len());
    assert(zero_padded_page(summary_bytes(summary)) =~= summary_bytes(summary) + rest);
    lemma_summary_round_trip(summary, rest);
    assert(expected.with_index_start(summary.index_start_blk) =~= summary);
    assert(index_bytes(es) =~= index_bytes(es) + Seq::<u8>::empty());
    writer.lemma_entries_have_width();
    lemma_index_round_trip(es, Seq::empty());
    lemma_sorted_distinct(es);
    assert(index_in_bounds(writer.index(), expected.key_start, expected.key_end, offset)) by {
        assert forall|k: Seq<u8>| #[trigger] writer.index().dom().contains(k) implies range_contains(
            expected.key_start,
            expected.key_end,
            k,
        ) && writer.index()[k].spec_pos() < offset by {
            assert(blob_at(writer.image(), writer.index()[k].spec_pos() as int) is Some);
        }
    }
}

/// The values of a writer read back from its file: the blob that the index
/// names for a key of the writer is the value that was put for the key.
pub proof fn lemma_file_holds_images(writer: ImageLayerWriter, key: Seq<u8>)
    requires
        writer.wf(),
        writer.index().dom().contains(key),
    ensures
        blob_at(block_view(writer.file()), writer.index()[key].spec_pos() as int) == Some(
            writer.images()[key],
        ),
{
    lemma_file_layout(writer);
    let file = writer.file();
    let image = writer.image();
    let view = block_view(file);
    let pos = writer.index()[key].spec_pos() as int;
    assert(blob_at(image, pos) is Some);
    assert(pos >= PAGE_SZ);
    assert(image.len() <= view.len());
    assert forall|i: int| pos <= i < image.len() implies image[i] == view[i] by {
        assert(view[i] == file[i]);
        assert(file.subrange(PAGE_SZ as int, image.len() as int)[i - PAGE_SZ] == file[i]);
        assert(image[i] == writer.values()[i - PAGE_SZ]);
    }
    lemma_blob_at_agree(image, view, pos);
}

/// What was written reads back. A lookup in the file of a writer, read as
/// the layer of the writer, owes for each key that the writer took the value
/// that was put for it, and for every other key the answer that the layer
/// does not hold it.
pub proof fn lemma_lookup_after_finish(writer: ImageLayerWriter, strict: bool, key: Seq<u8>)
    requires
        writer.wf(),
    ensures
        layer_lookup(writer.file(), writer.summary().with_index_start(0), strict, key) == Ok::<
            Option<Seq<u8>>,
            LayerError,
        >(
            if writer.images().dom().contains(key) {
                Some(writer.images()[key])
            } else {
                None
            },
        ),
{
    lemma_file_is_layer(writer, strict);
    if writer.index().dom().contains(key) {
        lemma_file_holds_images(writer, key);
    }
}

/// Reading every value of the file of a writer owes no failure, and what it
/// yields is what was put: each key that the writer took once, with the
/// value that was put for it, and nothing else.
pub proof fn lemma_items_after_finish(
    writer: ImageLayerWriter,
    strict: bool,
    items: Seq<(Key, Lsn, Vec<u8>)>,
)
    requires
        writer.wf(),
        items_of_layer(items, writer.file(), writer.index(), writer.lsn()),
    ensures
        layer_items_owed(writer.file(), writer.summary().with_index_start(0), strict) is Ok,
        forall|i: int|
            0 <= i < items.len() ==> writer.images().dom().contains((#[trigger] items[i]).0@)
                && writer.images()[items[i].0@] == items[i].2@,
        forall|i: int, j: int|
            #![trigger items[i], items[j]]
            0 <= i < j < items.len() ==> items[i].0@ != items[j].0@,
        forall|k: Seq<u8>| #[trigger]
            writer.images().dom().contains(k) ==> exists|i: int|
                0 <= i < items.len() && (#[trigger] items[i]).0@ == k,
{
    lemma_file_is_layer(writer, strict);
    assert forall|k: Seq<u8>| #[trigger] writer.index().dom().contains(k) implies blob_at(
        block_view(writer.file()),
        writer.index()[k].spec_pos() as int,
    ) is Some by {
        lemma_file_holds_images(writer, k);
    }
    assert forall|i: int| 0 <= i < items.len() implies writer.images().dom().contains(
        (#[trigger] items[i]).0@,
    ) && writer.images()[items[i].0@] == items[i].2@ by {
        lemma_file_holds_images(writer, items[i].0@);
    }
}

/// What a layer answers does not depend on what it holds in memory: two
/// states of one layer with one reader owe the same for reading the index,
/// for every lookup and for reading every value. Reading the index and
/// dropping it leave a layer the same layer with the same reader, so this
/// holds however often either was done in between.
pub proof fn lemma_answers_independent_of_memory<R: BlockReader>(
    a: ImageLayer<R>,
    b: ImageLayer<R>,
    key: Seq<u8>,
)
    requires
        a.same_layer(&b),
    ensures
        a.load_owed() == b.load_owed(),
        a.lookup_owed(key) == b.lookup_owed(key),
        a.items_owed() == b.items_owed(),
        a.reliable() == b.reliable(),
{
}

/// Being the same layer with the same reader carries over a chain of
/// states, in either direction.
pub proof fn lemma_same_layer_carries_over<R: BlockReader>(
    a: ImageLayer<R>,
    b: ImageLayer<R>,
    c: ImageLayer<R>,
)
    ensures
        a.same_layer(&a),
        a.same_layer(&b) ==> b.same_layer(&a),
        a.same_layer(&b) && b.same_layer(&c) ==> a.same_layer(&c),
{
}

} // verus!
