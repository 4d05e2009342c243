//! What a lookup in a layer works with.
use crate::lsn::Lsn;
use bytes::Bytes;
use vstd::prelude::*;

verus! {

/// The largest offset that a blob reference can hold.
pub const MAX_BLOB_POS: u64 = 0x7fff_ffff_ffff_ffff;

/// A reference to a value in a layer file: the offset of its blob, and a
/// mark that tells whether the value is a whole image. Every reference in an
/// image layer carries the mark.
#[derive(Clone, Copy, Debug, PartialEq, Eq, Hash, Structural)]
pub struct BlobRef(pub u64);

impl BlobRef {
    /// The offset of the blob.
    pub open spec fn spec_pos(&self) -> u64 {
        self.0 / 2
    }

    /// Whether the value is a whole image.
    pub open spec fn spec_will_init(&self) -> bool {
        self.0 % 2 == 1
    }

    /// The reference to the blob at `pos`.
    pub fn new(pos: u64, will_init: bool) -> (r: BlobRef)
        requires
            pos <= MAX_BLOB_POS,
        ensures
            r.spec_pos() == pos,
            r.spec_will_init() == will_init,
    {
        if will_init {
            BlobRef(pos * 2 + 1)
        } else {
            BlobRef(pos * 2)
        }
    }

    /// The offset of the blob.
    #[verifier::when_used_as_spec(spec_pos)]
    pub fn pos(&self) -> (pos: u64)
        ensures
            pos == self.spec_pos(),
    {
        self.0 / 2
    }

    /// Whether the value is a whole image.
    #[verifier::when_used_as_spec(spec_will_init)]
    pub fn will_init(&self) -> (b: bool)
        ensures
            b == self.spec_will_init(),
    {
        self.0 % 2 == 1
    }
}

/// A reference holds no more than its offset and its mark.
pub proof fn lemma_blob_ref_parts(a: BlobRef, b: BlobRef)
    requires
        a.spec_pos() == b.spec_pos(),
        a.spec_will_init() == b.spec_will_init(),
    ensures
        a == b,
{
}

/// How far a lookup got.
#[derive(Clone, Copy, Debug, PartialEq, Eq, Structural)]
pub enum ValueReconstructResult {
    /// More is needed from an older layer. An image layer never says so.
    Continue,
    /// The value was found and is complete.
    Complete,
    /// The key does not exist.
    Missing,
}

/// `bytes::Bytes`, a buffer of bytes that can be shared without copying.
/// Nothing is known of what is inside a value but through `bytes_contents`.
#[verifier::external_type_specification]
#[verifier::external_body]
pub struct ExBytes(Bytes);

/// The bytes that a buffer holds, in their order: what the buffer hands out
/// as a slice.
pub uninterp spec fn bytes_contents(b: Bytes) -> Seq<u8>;

/// `Bytes::from` on a vector: the buffer takes the vector over and holds
/// its bytes, in their order.
#[verifier::external_body]
pub(crate) fn bytes_from_vec(buf: Vec<u8>) -> (b: Bytes)
    ensures
        bytes_contents(b) == buf@,
{
    Bytes::from(buf)
}

/// What a lookup has collected.
#[derive(Debug)]
pub struct ValueReconstructState {
    /// The image found, with the LSN it is of.
    pub img: Option<(Lsn, Bytes)>,
}

impl ValueReconstructState {
    /// A state in which nothing has been collected.
    pub fn new() -> (state: ValueReconstructState)
        ensures
            state.img is None,
    {
        ValueReconstructState { img: None }
    }

    /// Whether the state holds the image `value` of `lsn`.
    pub open spec fn holds(&self, lsn: Lsn, value: Seq<u8>) -> bool {
        self.img matches Some((l, b)) && l == lsn && bytes_contents(b) == value
    }
}

} // verus!
