//! Keys and key ranges.
use crate::bin_ser::{bytes_equal, write_bytes};
use crate::error::LayerError;
use crate::hex::{append_hex, hex_decode, hex_encode, is_hex_text, parse_hex};
use std::ops::Range;
use vstd::prelude::*;

verus! {

/// The width of a key in bytes.
pub const KEY_SIZE: usize = 18;

/// An opaque identifier of fixed width. Keys are ordered byte by byte, the
/// first byte counting most.
#[derive(Clone, Copy, Debug, PartialEq, Eq, PartialOrd, Ord, Hash)]
pub struct Key {
    pub bytes: [u8; KEY_SIZE],
}

impl View for Key {
    type V = Seq<u8>;

    open spec fn view(&self) -> Seq<u8> {
        self.bytes@
    }
}

/// Whether `i` is the first place at which `a` and `b` differ.
pub open spec fn first_difference(a: Seq<u8>, b: Seq<u8>, i: int) -> bool {
    &&& 0 <= i < a.len()
    &&& i < b.len()
    &&& a[i] != b[i]
    &&& forall|j: int| 0 <= j < i ==> a[j] == b[j]
}

/// `a` comes before `b`: at the first place where they differ, `a` holds the
/// smaller byte.
pub open spec fn key_lt(a: Seq<u8>, b: Seq<u8>) -> bool {
    exists|i: int| #[trigger] first_difference(a, b, i) && a[i] < b[i]
}

/// `a` is `b` or comes before it.
pub open spec fn key_le(a: Seq<u8>, b: Seq<u8>) -> bool {
    a == b || key_lt(a, b)
}

/// Whether `key` lies in the half-open range from `start` to `end`.
pub open spec fn range_contains(start: Seq<u8>, end: Seq<u8>, key: Seq<u8>) -> bool {
    key_le(start, key) && key_lt(key, end)
}

/// Two byte strings of one length differ somewhere first, or are equal.
pub proof fn lemma_first_difference_exists(a: Seq<u8>, b: Seq<u8>)
    requires
        a.len() == b.len(),
        a != b,
    ensures
        exists|i: int| first_difference(a, b, i),
{
    lemma_first_difference_below(a, b, a.len() as int);
    if forall|j: int| 0 <= j < a.len() ==> a[j] == b[j] {
        assert(a =~= b);
    }
}

proof fn lemma_first_difference_below(a: Seq<u8>, b: Seq<u8>, n: int)
    requires
        a.len() == b.len(),
        0 <= n <= a.len(),
    ensures
        (exists|i: int| first_difference(a, b, i)) || (forall|j: int| 0 <= j < n ==> a[j] == b[j]),
    decreases n,
{
    if n > 0 {
        lemma_first_difference_below(a, b, n - 1);
        if forall|j: int| 0 <= j < n - 1 ==> a[j] == b[j] {
            if a[n - 1] != b[n - 1] {
                assert(first_difference(a, b, n - 1));
            }
        }
    }
}

/// No byte string comes before itself, and of two none comes both before
/// and after the other.
pub proof fn lemma_key_lt_asymmetric(a: Seq<u8>, b: Seq<u8>)
    ensures
        !(key_lt(a, b) && a == b),
        !(key_lt(a, b) && key_lt(b, a)),
{
    if key_lt(a, b) && key_lt(b, a) {
        let i = choose|i: int| #[trigger] first_difference(a, b, i) && a[i] < b[i];
        let j = choose|j: int| #[trigger] first_difference(b, a, j) && b[j] < a[j];
        assert(i == j);
    }
}

/// Keys of one width are totally ordered: of two, one comes before the
/// other, or they are equal.
pub proof fn lemma_key_order_total(a: Seq<u8>, b: Seq<u8>)
    requires
        a.len() == b.len(),
    ensures
        key_lt(a, b) || a == b || key_lt(b, a),
{
    if a != b {
        lemma_first_difference_exists(a, b);
        let i = choose|i: int| first_difference(a, b, i);
        assert(first_difference(b, a, i));
    }
}

/// The order of keys is transitive.
pub proof fn lemma_key_lt_transitive(a: Seq<u8>, b: Seq<u8>, c: Seq<u8>)
    requires
        key_lt(a, b),
        key_lt(b, c),
    ensures
        key_lt(a, c),
{
    let i = choose|i: int| #[trigger] first_difference(a, b, i) && a[i] < b[i];
    let j = choose|j: int| #[trigger] first_difference(b, c, j) && b[j] < c[j];
    let k = if i <= j {
        i
    } else {
        j
    };
    assert(first_difference(a, c, k));
}

impl Key {
    /// The key made of the `KEY_SIZE` bytes of `buf` that start at `at`.
    pub fn from_slice(buf: &[u8], at: usize) -> (key: Key)
        requires
            at + KEY_SIZE <= buf@.len(),
        ensures
            key@ == buf@.subrange(at as int, at + KEY_SIZE),
    {
        let len = buf.len();
        let mut bytes = [0u8;KEY_SIZE];
        let mut i: usize = 0;
        while i < KEY_SIZE
            invariant
                i <= KEY_SIZE,
                at + KEY_SIZE <= len == buf@.len(),
                forall|j: int| 0 <= j < i ==> bytes@[j] == buf@[at + j],
            decreases KEY_SIZE - i,
        {
            bytes[i] = buf[at + i];
            i += 1;
        }
        assert(bytes@ =~= buf@.subrange(at as int, at + KEY_SIZE));
        Key { bytes }
    }

    /// Appends the bytes of the key.
    pub fn write_to(&self, out: &mut Vec<u8>)
        ensures
            final(out)@ == old(out)@ + self@,
    {
        write_bytes(out, self.bytes.as_slice())
    }

    /// Whether the two keys are the same.
    pub fn equals(&self, other: &Key) -> (r: bool)
        ensures
            r == (self@ == other@),
            r == (*self == *other),
    {
        let r = bytes_equal(self.bytes.as_slice(), other.bytes.as_slice());
        assert(self@ == other@ ==> self.bytes == other.bytes);
        r
    }

    /// Whether this key comes before `other`.
    pub fn less_than(&self, other: &Key) -> (r: bool)
        ensures
            r == key_lt(self@, other@),
    {
        let mut i: usize = 0;
        while i < KEY_SIZE
            invariant
                i <= KEY_SIZE,
                forall|j: int| 0 <= j < i ==> self@[j] == other@[j],
            decreases KEY_SIZE - i,
        {
            if self.bytes[i] != other.bytes[i] {
                assert(first_difference(self@, other@, i as int));
                proof {
                    if key_lt(self@, other@) {
                        let k = choose|k: int| #[trigger]
                            first_difference(self@, other@, k) && self@[k] < other@[k];
                        assert(k == i);
                    }
                }
                return self.bytes[i] < other.bytes[i];
            }
            i += 1;
        }
        proof {
            if key_lt(self@, other@) {
                let k = choose|k: int| #[trigger]
                    first_difference(self@, other@, k) && self@[k] < other@[k];
                assert(false);
            }
        }
        false
    }

    /// The key as 36 upper-case hexadecimal digits.
    pub fn to_hex(&self) -> (text: String)
        ensures
            text@ == hex_encode(self@, true),
    {
        let mut text = String::new();
        append_hex(&mut text, self.bytes.as_slice(), true);
        assert(text@ =~= hex_encode(self@, true));
        text
    }

    /// Reads a key from 36 hexadecimal digits of either case.
    pub fn from_hex(text: &str) -> (r: Result<Key, LayerError>)
        ensures
            r matches Ok(key) ==> text@.len() == 2 * KEY_SIZE && is_hex_text(text@) && key@
                == hex_decode(text@),
            r matches Err(e) ==> e == LayerError::Parse && !(text@.len() == 2 * KEY_SIZE
                && is_hex_text(text@)),
    {
        match parse_hex(text) {
            Some(bytes) => {
                if bytes.len() == KEY_SIZE {
                    let key = Key::from_slice(bytes.as_slice(), 0);
                    assert(bytes@.subrange(0, KEY_SIZE as int) =~= bytes@);
                    Ok(key)
                } else {
                    Err(LayerError::Parse)
                }
            },
            None => Err(LayerError::Parse),
        }
    }
}

/// Whether `key` lies in `range`, whose end is exclusive.
pub fn key_range_contains(range: &Range<Key>, key: &Key) -> (r: bool)
    ensures
        r == range_contains(range.start@, range.end@, key@),
{
    (range.start.equals(key) || range.start.less_than(key)) && key.less_than(&range.end)
}

} // verus!
