//! Length-prefixed blobs.
//!
//! A blob of fewer than 128 bytes is preceded by one byte that holds its
//! length. A longer one is preceded by four bytes that hold its length
//! big-endian with the highest bit set. A blob may run across pages.
use crate::bin_ser::{be_digits, be_value, lemma_bound_fits, lemma_digits_of_value,
    lemma_fits_bound, lemma_value_of_digits, lemma_be_digits_len, read_u32, write_bytes, write_u32};
use crate::block_io::{block_view, has_page, page_of, BlockReader, MAX_BLOCKS, PAGE_SZ};
use crate::error::LayerError;
use vstd::prelude::*;
use vstd::slice::slice_subrange;

verus! {

/// One more than the length of the longest blob.
pub const MAX_BLOB_LEN: usize = 0x8000_0000;

/// The length prefix of a blob of `len` bytes.
pub open spec fn blob_header(len: nat) -> Seq<u8> {
    if len < 128 {
        seq![len as u8]
    } else {
        be_digits(len + MAX_BLOB_LEN as nat, 4)
    }
}

/// A blob as it is stored: its length prefix, then its bytes.
pub open spec fn blob_record(payload: Seq<u8>) -> Seq<u8> {
    blob_header(payload.len()) + payload
}

/// Where the bytes of the blob stored at `pos` start, and how many they are,
/// as the length prefix at `pos` says. `None` where `file` ends before the
/// prefix does.
pub open spec fn blob_extent(file: Seq<u8>, pos: int) -> Option<(int, int)> {
    if pos < 0 || pos >= file.len() {
        None
    } else if file[pos] < 128 {
        Some((pos + 1, file[pos] as int))
    } else if pos + 4 > file.len() {
        None
    } else {
        Some((pos + 4, be_value(file.subrange(pos, pos + 4)) - MAX_BLOB_LEN))
    }
}

/// The blob stored at `pos`. `None` where `file` ends before the blob does.
pub open spec fn blob_at(file: Seq<u8>, pos: int) -> Option<Seq<u8>> {
    match blob_extent(file, pos) {
        Some((start, len)) => if start + len <= file.len() {
            Some(file.subrange(start, start + len))
        } else {
            None
        },
        None => None,
    }
}

/// The prefix of a blob of at least 128 bytes starts with a byte of at least
/// 128 and reads back as the length with the highest bit set.
pub proof fn lemma_long_header(len: nat)
    requires
        128 <= len < MAX_BLOB_LEN,
    ensures
        blob_header(len).len() == 4,
        blob_header(len)[0] >= 128,
        be_value(blob_header(len)) == len + MAX_BLOB_LEN,
{
    let v = len + MAX_BLOB_LEN as nat;
    lemma_bound_fits(v, 4);
    lemma_value_of_digits(v, 4);
    lemma_be_digits_len(v, 4);
    reveal_with_fuel(be_digits, 5);
    assert(be_digits(v, 4)[0] == (v / 256 / 256 / 256 % 256) as u8);
}

/// A stored blob reads back: where `file` holds the record of `payload` at
/// `pos`, the blob at `pos` is `payload`.
pub proof fn lemma_blob_round_trip(file: Seq<u8>, pos: int, payload: Seq<u8>)
    requires
        payload.len() < MAX_BLOB_LEN,
        0 <= pos,
        pos + blob_record(payload).len() <= file.len(),
        file.subrange(pos, pos + blob_record(payload).len()) == blob_record(payload),
    ensures
        blob_at(file, pos) == Some(payload),
{
    let rec = blob_record(payload);
    let len = payload.len();
    let stored = file.subrange(pos, pos + rec.len());
    assert(forall|i: int| 0 <= i < rec.len() ==> #[trigger] stored[i] == file[pos + i]);
    if len < 128 {
        assert(stored[0] == rec[0]);
        assert forall|k: int| 0 <= k < len implies file[pos + 1 + k] == payload[k] by {
            assert(stored[k + 1] == rec[k + 1]);
        }
        assert(file.subrange(pos + 1, pos + 1 + len) =~= payload);
    } else {
        lemma_long_header(len);
        assert(stored[0] == rec[0]);
        assert forall|k: int| 0 <= k < 4 implies file[pos + k] == blob_header(len)[k] by {
            assert(stored[k] == rec[k]);
        }
        assert(file.subrange(pos, pos + 4) =~= blob_header(len));
        assert forall|k: int| 0 <= k < len implies file[pos + 4 + k] == payload[k] by {
            assert(stored[k + 4] == rec[k + 4]);
        }
        assert(file.subrange(pos + 4, pos + 4 + len) =~= payload);
    }
}

/// What lies before a blob and behind it does not matter: where `b` is at
/// least as long as `a` and holds the same as `a` from `pos` on, the blob of
/// `a` at `pos` is the blob of `b` at `pos`.
pub proof fn lemma_blob_at_agree(a: Seq<u8>, b: Seq<u8>, pos: int)
    requires
        blob_at(a, pos) is Some,
        a.len() <= b.len(),
        forall|i: int| pos <= i < a.len() ==> a[i] == b[i],
    ensures
        blob_at(b, pos) == blob_at(a, pos),
{
    if a[pos] >= 128 {
        assert(a.subrange(pos, pos + 4) =~= b.subrange(pos, pos + 4));
    }
    let (start, len) = blob_extent(a, pos).unwrap();
    if a[pos] >= 128 {
        lemma_high_bit(a.subrange(pos, pos + 4));
    }
    assert(a.subrange(start, start + len) =~= b.subrange(start, start + len));
}

/// Appends the record of `src`: its length prefix, then its bytes.
pub fn append_blob(out: &mut Vec<u8>, src: &[u8])
    requires
        src@.len() < MAX_BLOB_LEN,
    ensures
        final(out)@ == old(out)@ + blob_record(src@),
{
    let len = src.len();
    if len < 128 {
        out.push(len as u8);
        assert(out@ =~= old(out)@ + blob_header(len as nat));
    } else {
        write_u32(out, (len + MAX_BLOB_LEN) as u32);
    }
    write_bytes(out, src);
    assert(out@ =~= old(out)@ + blob_record(src@));
}

/// Collects blobs behind one another and tells where each one starts.
///
/// The writer keeps what it was given in memory; `into_inner` hands it out.
pub struct BlobWriter {
    start: u64,
    buf: Vec<u8>,
}

impl BlobWriter {
    #[verifier::type_invariant]
    spec fn inv(self) -> bool {
        self.start + self.buf@.len() <= u64::MAX
    }

    /// The offset at which the first blob starts.
    pub closed spec fn start(&self) -> nat {
        self.start as nat
    }

    /// The bytes written so far.
    pub closed spec fn written(&self) -> Seq<u8> {
        self.buf@
    }

    /// The offset behind the last byte written.
    pub open spec fn end(&self) -> nat {
        self.start() + self.written().len()
    }

    /// A writer whose first blob will start at `start_offset`.
    pub fn new(start_offset: u64) -> (w: BlobWriter)
        ensures
            w.start() == start_offset,
            w.written() == Seq::<u8>::empty(),
    {
        BlobWriter { start: start_offset, buf: Vec::new() }
    }

    /// The offset at which the next blob will start.
    pub fn size(&self) -> (n: u64)
        ensures
            n == self.end(),
    {
        proof {
            use_type_invariant(self);
        }
        self.start + self.buf.len() as u64
    }

    /// Appends the record of `src` and returns the offset at which it
    /// starts.
    ///
    /// Fails, and writes nothing, where `src` is too long for a length
    /// prefix or the record would end behind the largest offset.
    pub fn write_blob(&mut self, src: &[u8]) -> (r: Result<u64, LayerError>)
        ensures
            final(self).start() == old(self).start(),
            r matches Ok(offset) ==> {
                &&& offset == old(self).end()
                &&& final(self).written() == old(self).written() + blob_record(src@)
            },
            r matches Err(e) ==> e == LayerError::Io && final(self).written() == old(
                self,
            ).written(),
            r is Err <==> src@.len() >= MAX_BLOB_LEN || old(self).end() + blob_record(src@).len()
                > u64::MAX,
    {
        let offset = self.size();
        let len = src.len();
        if len >= MAX_BLOB_LEN {
            return Err(LayerError::Io);
        }
        let header_len: u64 = if len < 128 {
            1
        } else {
            4
        };
        proof {
            if len >= 128 {
                lemma_be_digits_len(len as nat + MAX_BLOB_LEN as nat, 4);
            }
        }
        if u64::MAX - offset < header_len + len as u64 {
            return Err(LayerError::Io);
        }
        let mut buf: Vec<u8> = Vec::new();
        std::mem::swap(&mut buf, &mut self.buf);
        append_blob(&mut buf, src);
        self.buf = buf;
        Ok(offset)
    }

    /// The bytes written, which belong at the writer's start offset.
    pub fn into_inner(self) -> (bytes: Vec<u8>)
        ensures
            bytes@ == self.written(),
    {
        self.buf
    }
}

/// A place in a file, with the page around it at hand.
struct BlockCursor {
    blknum: u32,
    off: usize,
    page: Vec<u8>,
}

impl BlockCursor {
    spec fn pos(&self) -> int {
        self.blknum * PAGE_SZ + self.off
    }

    spec fn wf(&self) -> bool {
        self.page@.len() == PAGE_SZ && self.off <= PAGE_SZ
    }

    /// Whether the page at hand is the page of `file` around the place.
    spec fn faithful(&self, file: Seq<u8>) -> bool {
        has_page(file, self.blknum as int) && self.page@ == page_of(file, self.blknum as int)
    }

    /// A cursor at `offset`, which must lie in a page that the file holds.
    fn seek<R: BlockReader>(reader: &R, offset: u64) -> (r: Result<BlockCursor, LayerError>)
        ensures
            r matches Ok(c) ==> c.wf() && c.pos() == offset && c.off < PAGE_SZ,
            r matches Err(e) ==> e == LayerError::Io,
            reader.reliable() ==> match r {
                Ok(c) => c.faithful(reader.contents()) && offset < block_view(
                    reader.contents(),
                ).len(),
                Err(_) => offset >= block_view(reader.contents()).len(),
            },
    {
        let page_sz = PAGE_SZ as u64;
        let blk = offset / page_sz;
        if blk >= MAX_BLOCKS {
            return Err(LayerError::Io);
        }
        let blknum = blk as u32;
        match reader.read_blk(blknum) {
            Ok(page) => {
                if page.len() != PAGE_SZ {
                    return Err(LayerError::Io);
                }
                Ok(BlockCursor { blknum, off: (offset % page_sz) as usize, page })
            },
            Err(_) => Err(LayerError::Io),
        }
    }

    /// Appends the next `n` bytes of the file to `out` and moves behind
    /// them, reading further pages as they are needed.
    fn read<R: BlockReader>(&mut self, reader: &R, n: usize, out: &mut Vec<u8>) -> (r: Result<
        (),
        LayerError,
    >)
        requires
            old(self).wf(),
        ensures
            final(self).wf(),
            r is Ok ==> final(self).pos() == old(self).pos() + n && final(out)@.len() == old(
                out,
            )@.len() + n,
            r is Ok ==> final(out)@.subrange(0, old(out)@.len() as int) == old(out)@,
            r matches Err(e) ==> e == LayerError::Io,
            reader.reliable() && old(self).faithful(reader.contents()) ==> {
                &&& final(self).faithful(reader.contents())
                &&& match r {
                    Ok(_) => {
                        &&& old(self).pos() + n <= block_view(reader.contents()).len()
                        &&& final(out)@ == old(out)@ + reader.contents().subrange(
                            old(self).pos(),
                            old(self).pos() + n,
                        )
                    },
                    Err(_) => old(self).pos() + n > block_view(reader.contents()).len(),
                }
            },
    {
        let ghost file = reader.contents();
        let ghost from = self.pos();
        let ghost modelled = reader.reliable() && self.faithful(file);
        let mut remain = n;
        proof {
            assert(out@.subrange(0, old(out)@.len() as int) =~= old(out)@);
            if modelled {
                assert(out@ =~= old(out)@ + file.subrange(from, from));
            }
        }
        while remain > 0
            invariant
                file == reader.contents(),
                self.wf(),
                remain <= n,
                self.pos() == from + (n - remain),
                from == old(self).pos(),
                out@.len() == old(out)@.len() + (n - remain),
                out@.subrange(0, old(out)@.len() as int) == old(out)@,
                modelled == (reader.reliable() && old(self).faithful(file)),
                modelled ==> self.faithful(file),
                modelled ==> out@ == old(out)@ + file.subrange(from, from + (n - remain)),
            decreases remain,
        {
            if self.off == PAGE_SZ {
                if self.blknum == u32::MAX {
                    return Err(LayerError::Io);
                }
                match reader.read_blk(self.blknum + 1) {
                    Ok(page) => {
                        if page.len() != PAGE_SZ {
                            return Err(LayerError::Io);
                        }
                        self.blknum = self.blknum + 1;
                        self.off = 0;
                        self.page = page;
                    },
                    Err(_) => {
                        return Err(LayerError::Io);
                    },
                }
            }
            let room = PAGE_SZ - self.off;
            let chunk = if remain < room {
                remain
            } else {
                room
            };
            let ghost before = out@;
            let ghost at = self.pos();
            write_bytes(out, slice_subrange(self.page.as_slice(), self.off, self.off + chunk));
            proof {
                assert(out@.subrange(0, old(out)@.len() as int) =~= before.subrange(
                    0,
                    old(out)@.len() as int,
                ));
                if modelled {
                    assert(self.page@.subrange(self.off as int, self.off + chunk)
                        =~= file.subrange(at, at + chunk));
                    assert(file.subrange(from, at) + file.subrange(at, at + chunk)
                        =~= file.subrange(from, at + chunk));
                }
            }
            self.off = self.off + chunk;
            remain = remain - chunk;
        }
        Ok(())
    }
}

/// Reads the blob stored at `offset`, page by page.
///
/// Only what lies in whole pages of the file can be read. With a reliable
/// reader the call succeeds exactly where the blob lies there as a whole,
/// and gives the blob. With any other reader it gives what the pages that
/// were read hold, or fails.
pub fn read_blob<R: BlockReader>(reader: &R, offset: u64) -> (r: Result<Vec<u8>, LayerError>)
    ensures
        r matches Err(e) ==> e == LayerError::Io,
        reader.reliable() ==> match r {
            Ok(bytes) => blob_at(block_view(reader.contents()), offset as int) == Some(bytes@),
            Err(_) => blob_at(block_view(reader.contents()), offset as int) is None,
        },
{
    let ghost file = reader.contents();
    let ghost view = block_view(file);
    let mut cursor = match BlockCursor::seek(reader, offset) {
        Ok(c) => c,
        Err(_) => {
            return Err(LayerError::Io);
        },
    };
    let mut header: Vec<u8> = Vec::new();
    match cursor.read(reader, 1, &mut header) {
        Ok(()) => {},
        Err(_) => {
            return Err(LayerError::Io);
        },
    }
    proof {
        if reader.reliable() {
            assert(header@ =~= seq![file[offset as int]]);
        }
    }
    let first = header[0];
    let len: usize = if first < 128 {
        first as usize
    } else {
        match cursor.read(reader, 3, &mut header) {
            Ok(()) => {},
            Err(_) => {
                return Err(LayerError::Io);
            },
        }
        assert(header@[0] == header@.subrange(0, 1)[0]);
        let raw = read_u32(header.as_slice(), 0);
        proof {
            assert(header@.subrange(0, 4) =~= header@);
            lemma_high_bit(header@);
            if reader.reliable() {
                assert(header@ =~= view.subrange(offset as int, offset + 4));
            }
        }
        (raw - MAX_BLOB_LEN as u32) as usize
    };
    let mut payload: Vec<u8> = Vec::new();
    let ghost start = cursor.pos();
    match cursor.read(reader, len, &mut payload) {
        Ok(()) => {},
        Err(_) => {
            return Err(LayerError::Io);
        },
    }
    proof {
        if reader.reliable() {
            assert(payload@ =~= view.subrange(start, start + len));
        }
    }
    Ok(payload)
}

/// Four bytes of which the first is at least 128 stand for a number with
/// the highest bit set.
proof fn lemma_high_bit(s: Seq<u8>)
    requires
        s.len() == 4,
        s[0] >= 128,
    ensures
        MAX_BLOB_LEN <= be_value(s) < 2 * MAX_BLOB_LEN,
{
    lemma_digits_of_value(s);
    lemma_fits_bound(be_value(s), 4);
    reveal_with_fuel(be_value, 5);
    assert(s.drop_last().drop_last().drop_last().last() == s[0]);
}

} // verus!
