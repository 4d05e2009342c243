//! The index of a layer: which blob holds the value of which key.
use crate::bin_ser::{be_digits, be_value, lemma_be_digits_len, lemma_bound_fits,
    lemma_value_of_digits, read_u64, write_u64};
use crate::error::LayerError;
use crate::repository::{key_lt, lemma_key_lt_asymmetric, lemma_key_lt_transitive,
    lemma_key_order_total, Key, KEY_SIZE};
use crate::storage_layer::BlobRef;
use vstd::prelude::*;

verus! {

/// One entry of an index.
#[derive(Clone, Copy, Debug, PartialEq, Eq)]
pub struct IndexEntry {
    pub key: Key,
    pub blob_ref: BlobRef,
}

/// Whether the keys of `es` ascend strictly.
pub open spec fn strictly_sorted(es: Seq<(Seq<u8>, BlobRef)>) -> bool {
    forall|i: int, j: int|
        #![trigger es[i], es[j]]
        0 <= i < j < es.len() ==> key_lt(es[i].0, es[j].0)
}

/// Whether no key occurs twice in `es`.
pub open spec fn distinct_keys(es: Seq<(Seq<u8>, BlobRef)>) -> bool {
    forall|i: int, j: int|
        #![trigger es[i], es[j]]
        0 <= i < j < es.len() ==> es[i].0 != es[j].0
}

/// Whether some entry of `es` has the key `k`.
pub open spec fn has_key(es: Seq<(Seq<u8>, BlobRef)>, k: Seq<u8>) -> bool {
    exists|i: int| 0 <= i < es.len() && (#[trigger] es[i]).0 == k
}

/// The place of an entry of `es` with the key `k`.
pub open spec fn place_of(es: Seq<(Seq<u8>, BlobRef)>, k: Seq<u8>) -> int {
    choose|i: int| 0 <= i < es.len() && (#[trigger] es[i]).0 == k
}

/// The mapping that the entries `es` stand for.
pub open spec fn entries_map(es: Seq<(Seq<u8>, BlobRef)>) -> Map<Seq<u8>, BlobRef> {
    Map::new(|k: Seq<u8>| has_key(es, k), |k: Seq<u8>| es[place_of(es, k)].1)
}

/// Keys that ascend strictly are distinct.
pub proof fn lemma_sorted_distinct(es: Seq<(Seq<u8>, BlobRef)>)
    requires
        strictly_sorted(es),
    ensures
        distinct_keys(es),
{
    assert forall|i: int, j: int|
        #![trigger es[i], es[j]]
        0 <= i < j < es.len() implies es[i].0 != es[j].0 by {
        lemma_key_lt_asymmetric(es[i].0, es[j].0);
    }
}

/// Where keys are distinct, the mapping sends the key of each entry to the
/// reference of that entry.
pub proof fn lemma_entries_map_at(es: Seq<(Seq<u8>, BlobRef)>, i: int)
    requires
        distinct_keys(es),
        0 <= i < es.len(),
    ensures
        entries_map(es).dom().contains(es[i].0),
        entries_map(es)[es[i].0] == es[i].1,
{
    let k = es[i].0;
    assert(has_key(es, k));
    let p = place_of(es, k);
    assert(es[p].0 == k);
    if p < i {
        assert(es[p].0 != es[i].0);
    } else if i < p {
        assert(es[i].0 != es[p].0);
    }
}

/// The entries as pairs of a key's bytes and a reference.
pub open spec fn entry_views(es: Seq<IndexEntry>) -> Seq<(Seq<u8>, BlobRef)> {
    Seq::new(es.len(), |i: int| (es[i].key@, es[i].blob_ref))
}

/// A mapping from keys to blob references, kept in the order of the keys.
pub struct Index {
    entries: Vec<IndexEntry>,
}

impl View for Index {
    type V = Map<Seq<u8>, BlobRef>;

    open spec fn view(&self) -> Map<Seq<u8>, BlobRef> {
        entries_map(self.entries())
    }
}

impl Index {
    #[verifier::type_invariant]
    spec fn inv(self) -> bool {
        strictly_sorted(self.entries())
    }

    /// The entries, in the order of their keys.
    pub closed spec fn entries(&self) -> Seq<(Seq<u8>, BlobRef)> {
        entry_views(self.entries@)
    }

    /// The empty index.
    pub fn new() -> (index: Index)
        ensures
            index@ == Map::<Seq<u8>, BlobRef>::empty(),
            index.entries() == Seq::<(Seq<u8>, BlobRef)>::empty(),
    {
        let index = Index { entries: Vec::new() };
        assert(index.entries() =~= Seq::<(Seq<u8>, BlobRef)>::empty());
        assert(index@ =~= Map::<Seq<u8>, BlobRef>::empty());
        index
    }

    /// The number of entries.
    pub fn len(&self) -> (n: usize)
        ensures
            n == self.entries().len(),
    {
        self.entries.len()
    }

    /// The entries, in the order of their keys. The keys ascend strictly,
    /// and the entries stand for the mapping.
    pub fn as_slice(&self) -> (es: &[IndexEntry])
        ensures
            entry_views(es@) == self.entries(),
            strictly_sorted(self.entries()),
            entries_map(self.entries()) == self@,
    {
        proof {
            use_type_invariant(self);
        }
        self.entries.as_slice()
    }

    /// The first place whose key is not before `key`, and whether the key
    /// there is `key`.
    fn search(&self, key: &Key) -> (r: (usize, bool))
        ensures
            r.0 <= self.entries().len(),
            forall|i: int| 0 <= i < r.0 ==> key_lt((#[trigger] self.entries()[i]).0, key@),
            forall|i: int|
                r.0 <= i < self.entries().len() ==> !key_lt((#[trigger] self.entries()[i]).0, key@),
            r.1 == has_key(self.entries(), key@),
            r.1 ==> r.0 < self.entries().len() && self.entries()[r.0 as int].0 == key@,
    {
        proof {
            use_type_invariant(self);
        }
        let ghost es = self.entries();
        let mut lo: usize = 0;
        let mut hi: usize = self.entries.len();
        while lo < hi
            invariant
                es == self.entries(),
                es.len() == self.entries@.len(),
                strictly_sorted(es),
                lo <= hi <= es.len(),
                forall|i: int| 0 <= i < lo ==> key_lt((#[trigger] es[i]).0, key@),
                forall|i: int| hi <= i < es.len() ==> !key_lt((#[trigger] es[i]).0, key@),
            decreases hi - lo,
        {
            let mid = lo + (hi - lo) / 2;
            assert(es[mid as int].0 == self.entries@[mid as int].key@);
            if self.entries[mid].key.less_than(key) {
                assert forall|i: int| 0 <= i < mid + 1 implies key_lt((#[trigger] es[i]).0, key@) by {
                    if i < mid {
                        assert(key_lt(es[i].0, es[mid as int].0));
                        lemma_key_lt_transitive(es[i].0, es[mid as int].0, key@);
                    }
                }
                lo = mid + 1;
            } else {
                assert forall|i: int| mid <= i < es.len() implies !key_lt(
                    (#[trigger] es[i]).0,
                    key@,
                ) by {
                    if mid < i && key_lt(es[i].0, key@) {
                        assert(key_lt(es[mid as int].0, es[i].0));
                        lemma_key_lt_transitive(es[mid as int].0, es[i].0, key@);
                    }
                }
                hi = mid;
            }
        }
        let found = lo < self.entries.len() && self.entries[lo].key.equals(key);
        proof {
            if lo < es.len() {
                assert(es[lo as int].0 == self.entries@[lo as int].key@);
            }
            if has_key(es, key@) {
                let i = place_of(es, key@);
                lemma_key_lt_asymmetric(es[i].0, key@);
                if lo < i {
                    assert(key_lt(es[lo as int].0, es[i].0));
                }
            }
        }
        (lo, found)
    }

    /// The reference that the index holds for `key`, if it holds one.
    pub fn find(&self, key: &Key) -> (r: Option<BlobRef>)
        ensures
            r == if self@.dom().contains(key@) {
                Some(self@[key@])
            } else {
                None
            },
    {
        proof {
            use_type_invariant(self);
            lemma_sorted_distinct(self.entries());
        }
        let (at, found) = self.search(key);
        if found {
            proof {
                lemma_entries_map_at(self.entries(), at as int);
            }
            Some(self.entries[at].blob_ref)
        } else {
            None
        }
    }

    /// Whether the index holds a reference for `key`.
    pub fn contains_key(&self, key: &Key) -> (r: bool)
        ensures
            r == self@.dom().contains(key@),
    {
        let (_, found) = self.search(key);
        found
    }

    /// Enters `blob_ref` for `key`, unless the index holds the key already.
    /// Tells whether it entered it.
    pub fn insert(&mut self, key: Key, blob_ref: BlobRef) -> (entered: bool)
        ensures
            entered == !old(self)@.dom().contains(key@),
            entered ==> final(self)@ == old(self)@.insert(key@, blob_ref),
            entered ==> final(self).entries().len() == old(self).entries().len() + 1,
            !entered ==> *final(self) == *old(self),
            strictly_sorted(final(self).entries()),
            final(self).entries().len() <= usize::MAX,
    {
        proof {
            use_type_invariant(&*self);
        }
        let (at, found) = self.search(&key);
        if found {
            assert(self.entries().len() == self.entries.len());
            return false;
        }
        let ghost es = self.entries();
        let ghost pair = (key@, blob_ref);
        let mut entries: Vec<IndexEntry> = Vec::new();
        std::mem::swap(&mut entries, &mut self.entries);
        assert(self.entries() =~= Seq::<(Seq<u8>, BlobRef)>::empty());
        entries.insert(at, IndexEntry { key, blob_ref });
        proof {
            let ns = entry_views(entries@);
            assert(ns =~= es.insert(at as int, pair));
            assert forall|i: int, j: int|
                #![trigger ns[i], ns[j]]
                0 <= i < j < ns.len() implies key_lt(ns[i].0, ns[j].0) by {
                if j == at {
                    assert(ns[i] == es[i]);
                } else if i == at {
                    assert(ns[j] == es[j - 1]);
                    assert(es[j - 1].0 == entries@[j].key@);
                    lemma_key_order_total(es[j - 1].0, key@);
                    assert(!has_key(es, key@));
                } else {
                    let oi = if i < at {
                        i
                    } else {
                        i - 1
                    };
                    let oj = if j < at {
                        j
                    } else {
                        j - 1
                    };
                    assert(ns[i] == es[oi] && ns[j] == es[oj]);
                    assert(key_lt(es[oi].0, es[oj].0));
                }
            }
            lemma_insert_map(es, at as int, pair);
        }
        self.entries = entries;
        assert(self.entries().len() == self.entries.len());
        true
    }

    /// Removes every entry.
    pub fn clear(&mut self)
        ensures
            final(self)@ == Map::<Seq<u8>, BlobRef>::empty(),
            final(self).entries() == Seq::<(Seq<u8>, BlobRef)>::empty(),
    {
        self.entries = Vec::new();
        assert(self.entries() =~= Seq::<(Seq<u8>, BlobRef)>::empty());
        assert(self@ =~= Map::<Seq<u8>, BlobRef>::empty());
    }
}

/// Entering an entry with a new key among entries with distinct keys
/// extends the mapping by that entry.
pub proof fn lemma_insert_map(es: Seq<(Seq<u8>, BlobRef)>, at: int, entry: (Seq<u8>, BlobRef))
    requires
        0 <= at <= es.len(),
        distinct_keys(es) || strictly_sorted(es),
        !has_key(es, entry.0),
    ensures
        distinct_keys(es.insert(at, entry)),
        entries_map(es.insert(at, entry)) == entries_map(es).insert(entry.0, entry.1),
{
    if strictly_sorted(es) {
        lemma_sorted_distinct(es);
    }
    let ns = es.insert(at, entry);
    assert forall|i: int, j: int|
        #![trigger ns[i], ns[j]]
        0 <= i < j < ns.len() implies ns[i].0 != ns[j].0 by {
        let oi = if i < at {
            i
        } else {
            i - 1
        };
        let oj = if j < at {
            j
        } else {
            j - 1
        };
        if i == at {
            assert(ns[j] == es[oj]);
        } else if j == at {
            assert(ns[i] == es[oi]);
        } else {
            assert(ns[i] == es[oi] && ns[j] == es[oj]);
        }
    }
    let a = entries_map(ns);
    let b = entries_map(es).insert(entry.0, entry.1);
    assert forall|k: Seq<u8>| a.dom().contains(k) <==> b.dom().contains(k) by {
        if has_key(ns, k) {
            let i = place_of(ns, k);
            if i < at {
                assert(ns[i] == es[i]);
            } else if i > at {
                assert(ns[i] == es[i - 1]);
            }
        }
        if has_key(es, k) {
            let i = place_of(es, k);
            if i < at {
                assert(ns[i] == es[i]);
            } else {
                assert(ns[i + 1] == es[i]);
            }
        }
        if k == entry.0 {
            assert(ns[at] == entry);
        }
    }
    assert forall|k: Seq<u8>| a.dom().contains(k) implies a[k] == b[k] by {
        let i = place_of(ns, k);
        lemma_entries_map_at(ns, i);
        if i < at {
            assert(ns[i] == es[i]);
            lemma_entries_map_at(es, i);
        } else if i > at {
            assert(ns[i] == es[i - 1]);
            lemma_entries_map_at(es, i - 1);
        } else {
            assert(ns[at] == entry);
        }
    }
    assert(a =~= b);
}

/// The size of one record of a stored index: a key, then a blob reference
/// as eight bytes.
pub const INDEX_RECORD_SIZE: usize = 26;

/// One entry as it is stored.
pub open spec fn index_record(e: (Seq<u8>, BlobRef)) -> Seq<u8> {
    e.0 + be_digits(e.1.0 as nat, 8)
}

/// The records of `es`, one behind the other.
pub open spec fn index_records(es: Seq<(Seq<u8>, BlobRef)>) -> Seq<u8>
    decreases es.len(),
{
    if es.len() == 0 {
        Seq::empty()
    } else {
        index_records(es.drop_last()) + index_record(es.last())
    }
}

/// An index as it is stored: the number of entries as eight bytes, then the
/// records.
pub open spec fn index_bytes(es: Seq<(Seq<u8>, BlobRef)>) -> Seq<u8> {
    be_digits(es.len(), 8) + index_records(es)
}

/// The entry that record `i` of the stored index `buf` holds.
pub open spec fn record_at(buf: Seq<u8>, i: int) -> (Seq<u8>, BlobRef) {
    let at = 8 + INDEX_RECORD_SIZE * i;
    (
        buf.subrange(at, at + KEY_SIZE),
        BlobRef(be_value(buf.subrange(at + KEY_SIZE, at + INDEX_RECORD_SIZE)) as u64),
    )
}

/// The entries of the stored index at the start of `buf`. `None` where `buf`
/// ends before the records do.
pub open spec fn parse_index(buf: Seq<u8>) -> Option<Seq<(Seq<u8>, BlobRef)>> {
    if buf.len() < 8 {
        None
    } else {
        let n = be_value(buf.subrange(0, 8));
        if 8 + INDEX_RECORD_SIZE * n > buf.len() {
            None
        } else {
            Some(Seq::new(n, |i: int| record_at(buf, i)))
        }
    }
}

/// Whether every key of `es` has the width of a key.
pub open spec fn keys_have_width(es: Seq<(Seq<u8>, BlobRef)>) -> bool {
    forall|i: int| 0 <= i < es.len() ==> (#[trigger] es[i]).0.len() == KEY_SIZE
}

/// Record `i` of the stored records of `es` is the record of entry `i`.
pub proof fn lemma_index_records(es: Seq<(Seq<u8>, BlobRef)>, i: int)
    requires
        keys_have_width(es),
        0 <= i < es.len(),
    ensures
        index_records(es).len() == INDEX_RECORD_SIZE * es.len(),
        index_records(es).subrange(INDEX_RECORD_SIZE * i, INDEX_RECORD_SIZE * i + INDEX_RECORD_SIZE)
            == index_record(es[i]),
    decreases es.len(),
{
    let init = es.drop_last();
    let last = es.last();
    lemma_be_digits_len(last.1.0 as nat, 8);
    assert(index_record(last).len() == INDEX_RECORD_SIZE);
    if es.len() > 1 {
        assert(keys_have_width(init)) by {
            assert forall|j: int| 0 <= j < init.len() implies (#[trigger] init[j]).0.len()
                == KEY_SIZE by {
                assert(init[j] == es[j]);
            }
        }
        lemma_index_records(init, if i < init.len() {
            i
        } else {
            0
        });
    } else {
        assert(index_records(init) =~= Seq::<u8>::empty());
    }
    let all = index_records(es);
    let at = INDEX_RECORD_SIZE * i;
    if i < init.len() {
        assert(init[i] == es[i]);
        assert(all.subrange(at, at + INDEX_RECORD_SIZE) =~= index_records(init).subrange(
            at,
            at + INDEX_RECORD_SIZE,
        ));
    } else {
        assert(all.subrange(at, at + INDEX_RECORD_SIZE) =~= index_record(last));
    }
}

/// A stored index reads back as the entries it was written from, whatever
/// follows it.
pub proof fn lemma_index_round_trip(es: Seq<(Seq<u8>, BlobRef)>, rest: Seq<u8>)
    requires
        keys_have_width(es),
        es.len() <= u64::MAX,
    ensures
        parse_index(index_bytes(es) + rest) == Some(es),
{
    let n = es.len();
    let buf = index_bytes(es) + rest;
    lemma_be_digits_len(n, 8);
    lemma_bound_fits(n, 8);
    lemma_value_of_digits(n, 8);
    assert(buf.subrange(0, 8) =~= be_digits(n, 8));
    if n == 0 {
        assert(index_records(es) =~= Seq::<u8>::empty());
    } else {
        lemma_index_records(es, 0);
    }
    let parsed = Seq::new(n, |i: int| record_at(buf, i));
    assert forall|i: int| 0 <= i < n implies parsed[i] == es[i] by {
        lemma_index_records(es, i);
        let at = 8 + INDEX_RECORD_SIZE * i;
        let rec = index_record(es[i]);
        lemma_be_digits_len(es[i].1.0 as nat, 8);
        assert(buf.subrange(at, at + INDEX_RECORD_SIZE) =~= index_records(es).subrange(
            INDEX_RECORD_SIZE * i,
            INDEX_RECORD_SIZE * i + INDEX_RECORD_SIZE,
        ));
        assert(buf.subrange(at, at + KEY_SIZE) =~= buf.subrange(
            at,
            at + INDEX_RECORD_SIZE,
        ).subrange(0, KEY_SIZE as int));
        assert(buf.subrange(at + KEY_SIZE, at + INDEX_RECORD_SIZE) =~= buf.subrange(
            at,
            at + INDEX_RECORD_SIZE,
        ).subrange(KEY_SIZE as int, INDEX_RECORD_SIZE as int));
        assert(rec.subrange(0, KEY_SIZE as int) =~= es[i].0);
        assert(rec.subrange(KEY_SIZE as int, INDEX_RECORD_SIZE as int) =~= be_digits(
            es[i].1.0 as nat,
            8,
        ));
        lemma_bound_fits(es[i].1.0 as nat, 8);
        lemma_value_of_digits(es[i].1.0 as nat, 8);
    }
    assert(parsed =~= es);
}

impl Index {
    /// Every key of an index has the width of a key.
    pub proof fn lemma_keys_have_width(&self)
        ensures
            keys_have_width(self.entries()),
    {
        assert forall|i: int| 0 <= i < self.entries().len() implies (
        #[trigger] self.entries()[i]).0.len() == KEY_SIZE by {
            assert(self.entries()[i].0 == self.entries@[i].key@);
        }
    }

    /// The index as it is stored.
    pub fn ser(&self) -> (out: Vec<u8>)
        ensures
            out@ == index_bytes(self.entries()),
    {
        let ghost es = self.entries();
        let n = self.entries.len();
        let mut out: Vec<u8> = Vec::new();
        write_u64(&mut out, n as u64);
        assert(out@ =~= be_digits(n as nat, 8) + index_records(es.subrange(0, 0)));
        let mut i: usize = 0;
        while i < n
            invariant
                i <= n == self.entries@.len(),
                es == self.entries(),
                out@ == be_digits(n as nat, 8) + index_records(es.subrange(0, i as int)),
            decreases n - i,
        {
            let entry = self.entries[i];
            entry.key.write_to(&mut out);
            write_u64(&mut out, entry.blob_ref.0);
            proof {
                let longer = es.subrange(0, i + 1);
                assert(longer.drop_last() =~= es.subrange(0, i as int));
                assert(longer.last() == (entry.key@, entry.blob_ref));
                assert(out@ =~= be_digits(n as nat, 8) + index_records(longer));
            }
            i += 1;
        }
        assert(es.subrange(0, n as int) =~= es);
        out
    }

    /// Reads the stored index at the start of `buf`. What follows the
    /// records is not looked at.
    ///
    /// Fails where `buf` ends before the records do, and where a key occurs
    /// twice.
    pub fn des(buf: &[u8]) -> (r: Result<Index, LayerError>)
        ensures
            r matches Ok(index) ==> parse_index(buf@) matches Some(es) && distinct_keys(es)
                && index@ == entries_map(es) && index.entries().len() == es.len(),
            r matches Err(e) ==> e == LayerError::Format && !(parse_index(buf@) matches Some(es)
                && distinct_keys(es)),
    {
        let len = buf.len();
        if len < 8 {
            return Err(LayerError::Format);
        }
        let count = read_u64(buf, 0);
        if count > ((len - 8) / INDEX_RECORD_SIZE) as u64 {
            return Err(LayerError::Format);
        }
        let n = count as usize;
        let ghost es = parse_index(buf@).unwrap();
        let mut index = Index::new();
        let mut i: usize = 0;
        while i < n
            invariant
                i <= n,
                len == buf@.len(),
                8 + INDEX_RECORD_SIZE * n <= len,
                parse_index(buf@) == Some(es),
                es.len() == n,
                distinct_keys(es.subrange(0, i as int)),
                index@ == entries_map(es.subrange(0, i as int)),
                index.entries().len() == i,
            decreases n - i,
        {
            let at = 8 + INDEX_RECORD_SIZE * i;
            let key = Key::from_slice(buf, at);
            let raw = read_u64(buf, at + KEY_SIZE);
            let ghost before = es.subrange(0, i as int);
            let ghost longer = es.subrange(0, i + 1);
            proof {
                assert(es[i as int] == (key@, BlobRef(raw)));
                assert(longer =~= before.insert(i as int, es[i as int]));
            }
            if !index.insert(key, BlobRef(raw)) {
                proof {
                    let j = place_of(before, key@);
                    assert(before[j].0 == key@);
                    assert(es[j] == before[j]);
                    assert(es[j].0 == es[i as int].0);
                }
                return Err(LayerError::Format);
            }
            proof {
                lemma_insert_map(before, i as int, es[i as int]);
            }
            i += 1;
        }
        assert(es.subrange(0, n as int) =~= es);
        Ok(index)
    }
}

/// Whether the blobs of `es` lie in the order of `es`.
pub open spec fn sorted_by_offset(es: Seq<(Seq<u8>, BlobRef)>) -> bool {
    forall|i: int, j: int|
        #![trigger es[i], es[j]]
        0 <= i < j < es.len() ==> es[i].1.spec_pos() <= es[j].1.spec_pos()
}

impl Index {
    /// The entries in the order in which their blobs lie in the file.
    pub fn by_offset(&self) -> (out: Vec<IndexEntry>)
        ensures
            sorted_by_offset(entry_views(out@)),
            distinct_keys(entry_views(out@)),
            entries_map(entry_views(out@)) == self@,
            out@.len() == self.entries().len(),
    {
        let entries = self.as_slice();
        let ghost es = entry_views(entries@);
        proof {
            lemma_sorted_distinct(es);
        }
        let mut out: Vec<IndexEntry> = Vec::new();
        assert(entry_views(out@) =~= es.subrange(0, 0));
        let mut i: usize = 0;
        while i < entries.len()
            invariant
                i <= entries@.len(),
                es == entry_views(entries@),
                distinct_keys(es),
                out@.len() == i,
                sorted_by_offset(entry_views(out@)),
                distinct_keys(entry_views(out@)),
                entries_map(entry_views(out@)) == entries_map(es.subrange(0, i as int)),
            decreases entries@.len() - i,
        {
            let entry = entries[i];
            let pos = entry.blob_ref.pos();
            let ghost ov = entry_views(out@);
            let ghost pair = (entry.key@, entry.blob_ref);
            let mut at: usize = out.len();
            while at > 0 && out[at - 1].blob_ref.pos() > pos
                invariant
                    at <= out@.len(),
                    ov == entry_views(out@),
                    forall|k: int| at <= k < out@.len() ==> (#[trigger] ov[k]).1.spec_pos() > pos,
                decreases at,
            {
                assert(ov[at - 1].1 == out@[at - 1].blob_ref);
                at -= 1;
            }
            proof {
                let before = es.subrange(0, i as int);
                assert(es[i as int] == pair);
                assert(!has_key(before, pair.0)) by {
                    if has_key(before, pair.0) {
                        let j = place_of(before, pair.0);
                        assert(before[j] == es[j]);
                    }
                }
                assert(distinct_keys(before)) by {
                    assert forall|a: int, b: int|
                        #![trigger before[a], before[b]]
                        0 <= a < b < before.len() implies before[a].0 != before[b].0 by {
                        assert(before[a] == es[a] && before[b] == es[b]);
                    }
                }
                assert(es.subrange(0, i + 1) =~= before.insert(i as int, pair));
                lemma_insert_map(before, i as int, pair);
                assert(!has_key(ov, pair.0)) by {
                    assert(has_key(ov, pair.0) == entries_map(ov).dom().contains(pair.0));
                    assert(has_key(before, pair.0) == entries_map(before).dom().contains(pair.0));
                }
                lemma_insert_map(ov, at as int, pair);
                if at > 0 {
                    assert(ov[at - 1].1 == out@[at - 1].blob_ref);
                }
            }
            out.insert(at, entry);
            proof {
                let nv = entry_views(out@);
                assert(nv =~= ov.insert(at as int, pair));
                assert forall|a: int, b: int|
                    #![trigger nv[a], nv[b]]
                    0 <= a < b < nv.len() implies nv[a].1.spec_pos() <= nv[b].1.spec_pos() by {
                    let oa = if a < at {
                        a
                    } else {
                        a - 1
                    };
                    let ob = if b < at {
                        b
                    } else {
                        b - 1
                    };
                    if a == at {
                        assert(nv[b] == ov[ob]);
                    } else if b == at {
                        assert(nv[a] == ov[oa]);
                        assert(ov[oa].1.spec_pos() <= ov[at - 1].1.spec_pos());
                    } else {
                        assert(nv[a] == ov[oa] && nv[b] == ov[ob]);
                    }
                }
            }
            i += 1;
        }
        assert(es.subrange(0, i as int) =~= es);
        out
    }
}

} // verus!
