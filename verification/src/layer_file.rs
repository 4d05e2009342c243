//! The file of an image layer as a whole, and what reading it comes to.
//!
//! ```text
//! offset 0                        summary, zero-padded to one page
//! offset PAGE_SZ                  values: length-prefixed blobs, back to back
//!                                 zeros up to the next page boundary
//! offset index_start_blk*PAGE_SZ  index: record count, then the records
//! ```
use crate::blob_io::blob_at;
use crate::block_io::{block_view, has_page, page_of, PAGE_SZ};
use crate::error::LayerError;
use crate::index::{distinct_keys, entries_map, entry_views, index_bytes, lemma_entries_map_at,
    lemma_sorted_distinct, parse_index, place_of, Index};
use crate::repository::{key_range_contains, range_contains, Key};
use crate::storage_layer::BlobRef;
use crate::summary::{parse_summary, summary_bytes, zero_padded_page, Summary, SummaryView};
use std::ops::Range;
use vstd::prelude::*;

verus! {

/// The largest offset at which the values of a layer may end: behind it no
/// block number could tell where the index starts.
pub const MAX_VALUES_END: u64 = 0x1fff_ffff_e000;

/// `n` zero bytes.
pub open spec fn zeros(n: int) -> Seq<u8> {
    Seq::new(n as nat, |i: int| 0u8)
}

/// The number of bytes between offset `end` and the next page boundary.
pub open spec fn gap_len(end: int) -> int {
    (PAGE_SZ - end % (PAGE_SZ as int)) % (PAGE_SZ as int)
}

/// The file of a layer: the page of the summary, the values, zeros up to
/// the next page boundary, and the index.
pub open spec fn layer_file(
    summary: SummaryView,
    values: Seq<u8>,
    entries: Seq<(Seq<u8>, BlobRef)>,
) -> Seq<u8> {
    zero_padded_page(summary_bytes(summary)) + values + zeros(gap_len(PAGE_SZ + values.len()))
        + index_bytes(entries)
}

/// The number of the block at which the index starts in the file of a
/// layer whose values take `len` bytes.
pub open spec fn index_start_of(len: int) -> int {
    (PAGE_SZ + len + gap_len(PAGE_SZ + len)) / (PAGE_SZ as int)
}

/// The offset at which the index starts in a file with the summary `s`.
pub open spec fn index_offset(s: SummaryView) -> int {
    s.index_start_blk * PAGE_SZ
}

/// Whether every key of `m` lies in the range from `start` to `end`, and
/// every blob of `m` starts before `limit`.
pub open spec fn index_in_bounds(
    m: Map<Seq<u8>, BlobRef>,
    start: Seq<u8>,
    end: Seq<u8>,
    limit: int,
) -> bool {
    forall|k: Seq<u8>| #[trigger]
        m.dom().contains(k) ==> range_contains(start, end, k) && m[k].spec_pos() < limit
}

/// What checking the first page `page` of a file against the layer
/// `expected` comes to: the summary that the page holds, or `Format` where
/// it holds none of this format, where the index would start in the first
/// page, and, with `strict` set, where the summary differs from `expected`
/// in more than the index start.
pub open spec fn check_summary_page(page: Seq<u8>, expected: SummaryView, strict: bool) -> Result<
    SummaryView,
    LayerError,
> {
    match parse_summary(page) {
        None => Err(LayerError::Format),
        Some(actual) => if strict && expected.with_index_start(actual.index_start_blk) != actual {
            Err(LayerError::Format)
        } else if actual.index_start_blk == 0 {
            Err(LayerError::Format)
        } else {
            Ok(actual)
        },
    }
}

/// What checking the stored index `tail` comes to: the index, or `Format`
/// where `tail` ends before the records do, where a key occurs twice, where
/// a key lies outside the range from `start` to `end`, and where a blob
/// starts at `limit` or behind it.
pub open spec fn check_index_bytes(tail: Seq<u8>, start: Seq<u8>, end: Seq<u8>, limit: int)
    -> Result<Map<Seq<u8>, BlobRef>, LayerError> {
    match parse_index(tail) {
        None => Err(LayerError::Format),
        Some(es) => if distinct_keys(es) && index_in_bounds(entries_map(es), start, end, limit) {
            Ok(entries_map(es))
        } else {
            Err(LayerError::Format)
        },
    }
}

/// What reading `file` as the layer `expected` comes to: the summary and the
/// index of the file, or the reason why it is no such layer.
///
/// A file that ends before its first page does, or before its index
/// starts, cannot be read: `Io`. A first page or an index that does not
/// stand the check is of another format or another layer: `Format`.
pub open spec fn check_layer_file(file: Seq<u8>, expected: SummaryView, strict: bool) -> Result<
    (SummaryView, Map<Seq<u8>, BlobRef>),
    LayerError,
> {
    if !has_page(file, 0) {
        Err(LayerError::Io)
    } else {
        match check_summary_page(page_of(file, 0), expected, strict) {
            Err(e) => Err(e),
            Ok(actual) => if index_offset(actual) > file.len() {
                Err(LayerError::Io)
            } else {
                match check_index_bytes(
                    file.subrange(index_offset(actual), file.len() as int),
                    expected.key_start,
                    expected.key_end,
                    index_offset(actual),
                ) {
                    Err(e) => Err(e),
                    Ok(index) => Ok((actual, index)),
                }
            },
        }
    }
}

/// Checks the first page of a file against the layer `expected`, whose
/// index start does not count.
pub fn read_summary(page: &[u8], expected: &Summary, strict: bool) -> (r: Result<
    Summary,
    LayerError,
>)
    ensures
        match r {
            Ok(actual) => check_summary_page(page@, expected@, strict) == Ok::<
                SummaryView,
                LayerError,
            >(actual@),
            Err(e) => check_summary_page(page@, expected@, strict) == Err::<
                SummaryView,
                LayerError,
            >(e),
        },
{
    let actual = match Summary::des_prefix(page) {
        Ok(summary) => summary,
        Err(_) => {
            return Err(LayerError::Format);
        },
    };
    if strict {
        let with_start = Summary {
            magic: expected.magic,
            format_version: expected.format_version,
            tenantid: expected.tenantid,
            timelineid: expected.timelineid,
            key_range: expected.key_range.start..expected.key_range.end,
            lsn: expected.lsn,
            index_start_blk: actual.index_start_blk,
        };
        assert(with_start@ =~= expected@.with_index_start(actual.index_start_blk));
        if !actual.same_as(&with_start) {
            return Err(LayerError::Format);
        }
    }
    if actual.index_start_blk == 0 {
        return Err(LayerError::Format);
    }
    Ok(actual)
}

/// Reads a stored index and checks it against the key range `key_range` and
/// the offset `limit`, before which every blob must start.
#[verifier::loop_isolation(false)]
pub fn read_index(tail: &[u8], key_range: &Range<Key>, limit: u64) -> (r: Result<
    Index,
    LayerError,
>)
    ensures
        match r {
            Ok(index) => check_index_bytes(
                tail@,
                key_range.start@,
                key_range.end@,
                limit as int,
            ) == Ok::<Map<Seq<u8>, BlobRef>, LayerError>(index@),
            Err(e) => check_index_bytes(tail@, key_range.start@, key_range.end@, limit as int)
                == Err::<Map<Seq<u8>, BlobRef>, LayerError>(e),
        },
{
    let index = match Index::des(tail) {
        Ok(index) => index,
        Err(_) => {
            return Err(LayerError::Format);
        },
    };
    let ghost m = index@;
    let entries = index.as_slice();
    let ghost es = entry_views(entries@);
    proof {
        lemma_sorted_distinct(es);
    }
    let mut i: usize = 0;
    while i < entries.len()
        invariant
            i <= entries@.len(),
            forall|j: int|
                0 <= j < i ==> range_contains(
                    key_range.start@,
                    key_range.end@,
                    (#[trigger] es[j]).0,
                ) && es[j].1.spec_pos() < limit,
        decreases entries@.len() - i,
    {
        let entry = &entries[i];
        assert(es[i as int] == (entry.key@, entry.blob_ref));
        if !key_range_contains(key_range, &entry.key) || entry.blob_ref.pos() >= limit {
            proof {
                lemma_entries_map_at(es, i as int);
                assert(m.dom().contains(es[i as int].0));
            }
            return Err(LayerError::Format);
        }
        i += 1;
    }
    proof {
        assert forall|k: Seq<u8>| #[trigger] m.dom().contains(k) implies range_contains(
            key_range.start@,
            key_range.end@,
            k,
        ) && m[k].spec_pos() < limit by {
            let j = place_of(es, k);
            lemma_entries_map_at(es, j);
        }
    }
    Ok(index)
}

/// What looking `key` up in `file`, read as the layer `expected`, comes to:
/// the value of the key, `None` where the layer does not hold the key, or
/// the reason why the file cannot be read.
pub open spec fn layer_lookup(file: Seq<u8>, expected: SummaryView, strict: bool, key: Seq<u8>)
    -> Result<Option<Seq<u8>>, LayerError> {
    match check_layer_file(file, expected, strict) {
        Err(e) => Err(e),
        Ok((_, index)) => if index.dom().contains(key) {
            match blob_at(block_view(file), index[key].spec_pos() as int) {
                Some(value) => Ok(Some(value)),
                None => Err(LayerError::Io),
            }
        } else {
            Ok(None)
        },
    }
}

/// What reading every value of `file`, read as the layer `expected`, comes
/// to: nothing to complain of, or the reason why the file cannot be read.
pub open spec fn layer_items_owed(file: Seq<u8>, expected: SummaryView, strict: bool) -> Result<
    (),
    LayerError,
> {
    match check_layer_file(file, expected, strict) {
        Err(e) => Err(e),
        Ok((_, index)) => if forall|k: Seq<u8>| #[trigger]
            index.dom().contains(k) ==> blob_at(block_view(file), index[k].spec_pos() as int)
                is Some {
            Ok(())
        } else {
            Err(LayerError::Io)
        },
    }
}

} // verus!
