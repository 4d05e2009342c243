//! The summary at the start of a layer file.
//!
//! ```text
//! bytes  0.. 2  magic
//! bytes  2.. 4  format version
//! bytes  4..20  tenant
//! bytes 20..36  timeline
//! bytes 36..54  first key of the range
//! bytes 54..72  end of the key range
//! bytes 72..80  LSN
//! bytes 80..84  number of the block at which the index starts
//! ```
//! Numbers are stored big-endian.
use crate::bin_ser::{be_digits, be_value, lemma_be_digits_len, lemma_bound_fits,
    lemma_value_of_digits, read_u16, read_u32, read_u64, write_u16, write_u32, write_u64};
use crate::block_io::PAGE_SZ;
use crate::error::LayerError;
use crate::lsn::Lsn;
use crate::repository::{Key, KEY_SIZE};
use crate::zid::{ZTenantId, ZTimelineId, ZID_SIZE};
use std::ops::Range;
use vstd::prelude::*;

verus! {

/// What the first two bytes of an image layer file hold.
pub const IMAGE_FILE_MAGIC: u16 = 0x5A60;

/// The version of the file format that this crate reads and writes.
pub const STORAGE_FORMAT_VERSION: u16 = 1;

/// The number of bytes that a stored summary takes.
pub const SUMMARY_SIZE: usize = 84;

/// The fixed header of a layer file.
#[derive(Debug, PartialEq, Eq)]
pub struct Summary {
    /// Always `IMAGE_FILE_MAGIC`.
    pub magic: u16,
    pub format_version: u16,
    pub tenantid: ZTenantId,
    pub timelineid: ZTimelineId,
    pub key_range: Range<Key>,
    pub lsn: Lsn,
    /// The number of the block at which the index starts.
    pub index_start_blk: u32,
}

/// A summary as plain values.
#[verifier::ext_equal]
pub struct SummaryView {
    pub magic: u16,
    pub format_version: u16,
    pub tenantid: Seq<u8>,
    pub timelineid: Seq<u8>,
    pub key_start: Seq<u8>,
    pub key_end: Seq<u8>,
    pub lsn: u64,
    pub index_start_blk: u32,
}

impl SummaryView {
    /// Whether the identifiers and keys have their widths.
    pub open spec fn wf(self) -> bool {
        &&& self.tenantid.len() == ZID_SIZE
        &&& self.timelineid.len() == ZID_SIZE
        &&& self.key_start.len() == KEY_SIZE
        &&& self.key_end.len() == KEY_SIZE
    }

    /// Whether the summary carries the magic and the version of this format.
    pub open spec fn current(self) -> bool {
        self.magic == IMAGE_FILE_MAGIC && self.format_version == STORAGE_FORMAT_VERSION
    }

    /// The summary with another index start.
    pub open spec fn with_index_start(self, index_start_blk: u32) -> SummaryView {
        SummaryView { index_start_blk, ..self }
    }
}

impl View for Summary {
    type V = SummaryView;

    open spec fn view(&self) -> SummaryView {
        SummaryView {
            magic: self.magic,
            format_version: self.format_version,
            tenantid: self.tenantid@,
            timelineid: self.timelineid@,
            key_start: self.key_range.start@,
            key_end: self.key_range.end@,
            lsn: self.lsn.0,
            index_start_blk: self.index_start_blk,
        }
    }
}

/// A summary as it is stored.
pub open spec fn summary_bytes(v: SummaryView) -> Seq<u8> {
    be_digits(v.magic as nat, 2) + be_digits(v.format_version as nat, 2) + v.tenantid
        + v.timelineid + v.key_start + v.key_end + be_digits(v.lsn as nat, 8) + be_digits(
        v.index_start_blk as nat,
        4,
    )
}

/// The fields of the stored summary at the start of `buf`, whatever they
/// hold.
pub open spec fn summary_fields(buf: Seq<u8>) -> SummaryView {
    SummaryView {
        magic: be_value(buf.subrange(0, 2)) as u16,
        format_version: be_value(buf.subrange(2, 4)) as u16,
        tenantid: buf.subrange(4, 20),
        timelineid: buf.subrange(20, 36),
        key_start: buf.subrange(36, 54),
        key_end: buf.subrange(54, 72),
        lsn: be_value(buf.subrange(72, 80)) as u64,
        index_start_blk: be_value(buf.subrange(80, 84)) as u32,
    }
}

/// The summary stored at the start of `buf`. `None` where `buf` is too
/// short, and where the magic or the version is not that of this format.
pub open spec fn parse_summary(buf: Seq<u8>) -> Option<SummaryView> {
    if buf.len() >= SUMMARY_SIZE && summary_fields(buf).current() {
        Some(summary_fields(buf))
    } else {
        None
    }
}

/// A stored summary takes `SUMMARY_SIZE` bytes and holds the fields it was
/// written from, whatever follows it.
pub proof fn lemma_summary_fields(v: SummaryView, rest: Seq<u8>)
    requires
        v.wf(),
    ensures
        summary_bytes(v).len() == SUMMARY_SIZE,
        summary_fields(summary_bytes(v) + rest) == v,
{
    let buf = summary_bytes(v) + rest;
    lemma_be_digits_len(v.magic as nat, 2);
    lemma_be_digits_len(v.format_version as nat, 2);
    lemma_be_digits_len(v.lsn as nat, 8);
    lemma_be_digits_len(v.index_start_blk as nat, 4);
    lemma_bound_fits(v.magic as nat, 2);
    lemma_bound_fits(v.format_version as nat, 2);
    lemma_bound_fits(v.lsn as nat, 8);
    lemma_bound_fits(v.index_start_blk as nat, 4);
    lemma_value_of_digits(v.magic as nat, 2);
    lemma_value_of_digits(v.format_version as nat, 2);
    lemma_value_of_digits(v.lsn as nat, 8);
    lemma_value_of_digits(v.index_start_blk as nat, 4);
    assert(buf.subrange(0, 2) =~= be_digits(v.magic as nat, 2));
    assert(buf.subrange(2, 4) =~= be_digits(v.format_version as nat, 2));
    assert(buf.subrange(4, 20) =~= v.tenantid);
    assert(buf.subrange(20, 36) =~= v.timelineid);
    assert(buf.subrange(36, 54) =~= v.key_start);
    assert(buf.subrange(54, 72) =~= v.key_end);
    assert(buf.subrange(72, 80) =~= be_digits(v.lsn as nat, 8));
    assert(buf.subrange(80, 84) =~= be_digits(v.index_start_blk as nat, 4));
    assert(summary_fields(buf) =~= v);
}

/// A stored summary takes `SUMMARY_SIZE` bytes.
pub proof fn lemma_summary_len(v: SummaryView)
    requires
        v.wf(),
    ensures
        summary_bytes(v).len() == SUMMARY_SIZE,
{
    lemma_summary_fields(v, Seq::empty());
}

/// A summary of this format that was stored reads back as it was, whatever
/// follows it.
pub proof fn lemma_summary_round_trip(v: SummaryView, rest: Seq<u8>)
    requires
        v.wf(),
        v.current(),
    ensures
        parse_summary(summary_bytes(v) + rest) == Some(v),
{
    lemma_summary_fields(v, rest);
}

impl Summary {
    /// The summary as it is stored.
    pub fn ser(&self) -> (out: Vec<u8>)
        ensures
            out@ == summary_bytes(self@),
    {
        let mut out: Vec<u8> = Vec::new();
        write_u16(&mut out, self.magic);
        write_u16(&mut out, self.format_version);
        self.tenantid.write_to(&mut out);
        self.timelineid.write_to(&mut out);
        self.key_range.start.write_to(&mut out);
        self.key_range.end.write_to(&mut out);
        write_u64(&mut out, self.lsn.0);
        write_u32(&mut out, self.index_start_blk);
        assert(out@ =~= summary_bytes(self@));
        out
    }

    /// Reads the summary stored at the start of `buf`. What follows it is
    /// not looked at.
    ///
    /// Fails where `buf` is too short, and where the magic or the version is
    /// not that of this format.
    pub fn des_prefix(buf: &[u8]) -> (r: Result<Summary, LayerError>)
        ensures
            r matches Ok(summary) ==> parse_summary(buf@) == Some(summary@),
            r matches Err(e) ==> e == LayerError::Format && parse_summary(buf@) is None,
    {
        if buf.len() < SUMMARY_SIZE {
            return Err(LayerError::Format);
        }
        let magic = read_u16(buf, 0);
        let format_version = read_u16(buf, 2);
        if magic != IMAGE_FILE_MAGIC || format_version != STORAGE_FORMAT_VERSION {
            return Err(LayerError::Format);
        }
        let summary = Summary {
            magic,
            format_version,
            tenantid: ZTenantId::from_slice(buf, 4),
            timelineid: ZTimelineId::from_slice(buf, 20),
            key_range: Key::from_slice(buf, 36)..Key::from_slice(buf, 54),
            lsn: Lsn(read_u64(buf, 72)),
            index_start_blk: read_u32(buf, 80),
        };
        assert(summary@ =~= summary_fields(buf@));
        Ok(summary)
    }

    /// Whether the two summaries hold the same in every field.
    pub fn same_as(&self, other: &Summary) -> (r: bool)
        ensures
            r == (self@ == other@),
    {
        let r = self.magic == other.magic && self.format_version == other.format_version
            && self.tenantid.equals(&other.tenantid) && self.timelineid.equals(&other.timelineid)
            && self.key_range.start.equals(&other.key_range.start) && self.key_range.end.equals(
            &other.key_range.end,
        ) && self.lsn.0 == other.lsn.0 && self.index_start_blk == other.index_start_blk;
        assert(r ==> self@ =~= other@);
        r
    }
}

/// A page that starts with `head` and is zero behind it.
pub open spec fn zero_padded_page(head: Seq<u8>) -> Seq<u8> {
    Seq::new(
        PAGE_SZ as nat,
        |i: int|
            if i < head.len() {
                head[i]
            } else {
                0u8
            },
    )
}

} // verus!
