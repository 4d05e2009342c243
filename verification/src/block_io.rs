//! Files as sequences of fixed-size pages.
use crate::error::LayerError;
use vstd::prelude::*;
use vstd::slice::{slice_subrange, slice_to_vec};

verus! {

/// The size of a page in bytes.
pub const PAGE_SZ: usize = 8192;

/// The number of pages that a block number can tell apart.
pub const MAX_BLOCKS: u64 = 0x1_0000_0000;

/// Whether `file` holds all of page `blknum`.
pub open spec fn has_page(file: Seq<u8>, blknum: int) -> bool {
    0 <= blknum && (blknum + 1) * PAGE_SZ <= file.len()
}

/// Page `blknum` of `file`.
pub open spec fn page_of(file: Seq<u8>, blknum: int) -> Seq<u8> {
    file.subrange(blknum * PAGE_SZ, (blknum + 1) * PAGE_SZ)
}

/// The number of whole pages of `file` that have a block number.
pub open spec fn block_count(file: Seq<u8>) -> int {
    if file.len() / (PAGE_SZ as nat) < MAX_BLOCKS {
        (file.len() / (PAGE_SZ as nat)) as int
    } else {
        MAX_BLOCKS as int
    }
}

/// The part of `file` that can be read page by page: its whole pages, as far
/// as block numbers reach.
pub open spec fn block_view(file: Seq<u8>) -> Seq<u8> {
    file.subrange(0, block_count(file) * PAGE_SZ)
}

/// Random access to the bytes of one file.
///
/// A reader is reliable when a read gives what `contents` holds at the
/// place asked for and fails only where `contents` ends before the read
/// does. Nothing is taken for granted of a reader that is not reliable: a
/// read may fail at any time, and may give any bytes. A reader is not
/// reliable unless it says so.
pub trait BlockReader {
    /// The bytes of the file, where the reader is reliable.
    open spec fn contents(&self) -> Seq<u8> {
        Seq::empty()
    }

    /// Whether reads give what `contents` holds.
    open spec fn reliable(&self) -> bool {
        false
    }

    /// Reads page `blknum`. Fails where the file does not hold the whole
    /// page.
    fn read_blk(&self, blknum: u32) -> (r: Result<Vec<u8>, LayerError>)
        ensures
            self.reliable() ==> match r {
                Ok(page) => has_page(self.contents(), blknum as int) && page@ == page_of(
                    self.contents(),
                    blknum as int,
                ),
                Err(_) => !has_page(self.contents(), blknum as int),
            },
    ;

    /// Reads everything from `offset` to the end of the file. Fails where
    /// `offset` lies behind the end.
    fn read_tail(&self, offset: u64) -> (r: Result<Vec<u8>, LayerError>)
        ensures
            self.reliable() ==> match r {
                Ok(bytes) => offset <= self.contents().len() && bytes@
                    == self.contents().subrange(offset as int, self.contents().len() as int),
                Err(_) => offset > self.contents().len(),
            },
    ;
}

/// A file held in memory.
#[derive(Debug)]
pub struct MemoryFile {
    pub data: Vec<u8>,
}

impl MemoryFile {
    /// The file that holds `data`.
    pub fn new(data: Vec<u8>) -> (file: MemoryFile)
        ensures
            file.data == data,
            file.contents() == data@,
            file.reliable(),
    {
        MemoryFile { data }
    }
}

impl BlockReader for MemoryFile {
    open spec fn contents(&self) -> Seq<u8> {
        self.data@
    }

    open spec fn reliable(&self) -> bool {
        true
    }

    fn read_blk(&self, blknum: u32) -> (r: Result<Vec<u8>, LayerError>) {
        let page_sz = PAGE_SZ as u64;
        let end = (blknum as u64 + 1) * page_sz;
        if end > self.data.len() as u64 {
            return Err(LayerError::Io);
        }
        let start = (end - page_sz) as usize;
        let page = slice_subrange(self.data.as_slice(), start, end as usize);
        Ok(slice_to_vec(page))
    }

    fn read_tail(&self, offset: u64) -> (r: Result<Vec<u8>, LayerError>) {
        if offset > self.data.len() as u64 {
            return Err(LayerError::Io);
        }
        let tail = slice_subrange(self.data.as_slice(), offset as usize, self.data.len());
        Ok(slice_to_vec(tail))
    }
}

} // verus!
