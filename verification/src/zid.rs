//! Tenant and timeline identifiers.
use crate::bin_ser::{bytes_equal, write_bytes};
use crate::hex::{append_hex, hex_encode};
use vstd::prelude::*;

verus! {

/// The width of an identifier in bytes.
pub const ZID_SIZE: usize = 16;

/// The `ZID_SIZE` bytes of `buf` that start at `at`.
pub fn read_zid(buf: &[u8], at: usize) -> (bytes: [u8; ZID_SIZE])
    requires
        at + ZID_SIZE <= buf@.len(),
    ensures
        bytes@ == buf@.subrange(at as int, at + ZID_SIZE),
{
    let len = buf.len();
    let mut bytes = [0u8;ZID_SIZE];
    let mut i: usize = 0;
    while i < ZID_SIZE
        invariant
            i <= ZID_SIZE,
            at + ZID_SIZE <= len == buf@.len(),
            forall|j: int| 0 <= j < i ==> bytes@[j] == buf@[at + j],
        decreases ZID_SIZE - i,
    {
        bytes[i] = buf[at + i];
        i += 1;
    }
    assert(bytes@ =~= buf@.subrange(at as int, at + ZID_SIZE));
    bytes
}

/// The opaque identifier of a tenant.
#[derive(Clone, Copy, Debug, PartialEq, Eq, PartialOrd, Ord, Hash)]
pub struct ZTenantId {
    pub bytes: [u8; ZID_SIZE],
}

/// The opaque identifier of a timeline.
#[derive(Clone, Copy, Debug, PartialEq, Eq, PartialOrd, Ord, Hash)]
pub struct ZTimelineId {
    pub bytes: [u8; ZID_SIZE],
}

impl View for ZTenantId {
    type V = Seq<u8>;

    open spec fn view(&self) -> Seq<u8> {
        self.bytes@
    }
}

impl View for ZTimelineId {
    type V = Seq<u8>;

    open spec fn view(&self) -> Seq<u8> {
        self.bytes@
    }
}

impl ZTenantId {
    /// The identifier made of the `ZID_SIZE` bytes of `buf` that start at `at`.
    pub fn from_slice(buf: &[u8], at: usize) -> (id: ZTenantId)
        requires
            at + ZID_SIZE <= buf@.len(),
        ensures
            id@ == buf@.subrange(at as int, at + ZID_SIZE),
    {
        ZTenantId { bytes: read_zid(buf, at) }
    }

    /// Appends the bytes of the identifier.
    pub fn write_to(&self, out: &mut Vec<u8>)
        ensures
            final(out)@ == old(out)@ + self@,
    {
        write_bytes(out, self.bytes.as_slice())
    }

    /// Whether the two identifiers are the same.
    pub fn equals(&self, other: &ZTenantId) -> (r: bool)
        ensures
            r == (self@ == other@),
            r == (*self == *other),
    {
        let r = bytes_equal(self.bytes.as_slice(), other.bytes.as_slice());
        assert(self@ == other@ ==> self.bytes == other.bytes);
        r
    }

    /// The identifier as 32 lower-case hexadecimal digits, as it stands in
    /// paths.
    pub fn to_hex(&self) -> (text: String)
        ensures
            text@ == hex_encode(self@, false),
    {
        let mut text = String::new();
        append_hex(&mut text, self.bytes.as_slice(), false);
        assert(text@ =~= hex_encode(self@, false));
        text
    }
}

impl ZTimelineId {
    /// The identifier made of the `ZID_SIZE` bytes of `buf` that start at `at`.
    pub fn from_slice(buf: &[u8], at: usize) -> (id: ZTimelineId)
        requires
            at + ZID_SIZE <= buf@.len(),
        ensures
            id@ == buf@.subrange(at as int, at + ZID_SIZE),
    {
        ZTimelineId { bytes: read_zid(buf, at) }
    }

    /// Appends the bytes of the identifier.
    pub fn write_to(&self, out: &mut Vec<u8>)
        ensures
            final(out)@ == old(out)@ + self@,
    {
        write_bytes(out, self.bytes.as_slice())
    }

    /// Whether the two identifiers are the same.
    pub fn equals(&self, other: &ZTimelineId) -> (r: bool)
        ensures
            r == (self@ == other@),
            r == (*self == *other),
    {
        let r = bytes_equal(self.bytes.as_slice(), other.bytes.as_slice());
        assert(self@ == other@ ==> self.bytes == other.bytes);
        r
    }

    /// The identifier as 32 lower-case hexadecimal digits, as it stands in
    /// paths.
    pub fn to_hex(&self) -> (text: String)
        ensures
            text@ == hex_encode(self@, false),
    {
        let mut text = String::new();
        append_hex(&mut text, self.bytes.as_slice(), false);
        assert(text@ =~= hex_encode(self@, false));
        text
    }
}

} // verus!
