//! A segment: one store paired with one index, covering a contiguous range
//! of offsets that begins at the segment's base offset.
//!
//! The segment assigns the next offset on append (store first, then index),
//! enforces the capacity caps, and recomputes its next offset when reopened
//! from persisted files: one past the highest offset in the index, or the
//! base offset if the index is empty.

use vstd::prelude::*;
use crate::errors::{StorageError, IndexError, SegmentError};
use crate::store::{Store, encode_records, record_start, parse_records,
    lemma_read_at_record_start, lemma_encode_records_push, lemma_store_reopen, MAX_RECORD_LEN};
use crate::index::{Index, lookup, parse_entries, encode_entries, lemma_index_reopen};
use vstd::bytes::spec_u64_from_le_bytes;

verus! {

/// The highest offset field among the entries.
pub open spec fn max_entry_offset(es: Seq<(u64, u64)>) -> u64
    recommends
        es.len() >= 1,
    decreases es.len(),
{
    if es.len() <= 1 {
        es[0].0
    } else {
        let m = max_entry_offset(es.drop_last());
        if es.last().0 > m {
            es.last().0
        } else {
            m
        }
    }
}

/// Whether some entry's offset field is the largest 64-bit value, which
/// has no successor to use as the next offset.
pub open spec fn has_max_offset_entry(es: Seq<(u64, u64)>) -> bool {
    exists|i: int| 0 <= i < es.len() && (#[trigger] es[i]).0 == u64::MAX
}

/// In a densely indexed segment, looking an offset up returns the position
/// stored in its slot.
pub proof fn lemma_lookup_dense(es: Seq<(u64, u64)>, base: u64, o: u64)
    requires
        forall|i: int| 0 <= i < es.len() ==> (#[trigger] es[i]).0 == base + i,
        base <= o < base + es.len(),
    ensures
        lookup(es, o) == Some(es[o - base].1),
    decreases es.len(),
{
    if es[0].0 == o {
        assert(o == base);
    } else {
        assert(o > base);
        let es2 = es.drop_first();
        assert(forall|i: int| 0 <= i < es2.len() ==> (#[trigger] es2[i]).0 == (base + 1) + i);
        lemma_lookup_dense(es2, (base + 1) as u64, o);
        assert(es2[o - (base + 1)] == es[o - base]);
    }
}

/// In a densely indexed segment, the highest entry offset is the last one.
pub proof fn lemma_max_of_dense(es: Seq<(u64, u64)>, base: u64)
    requires
        es.len() >= 1,
        base + es.len() <= u64::MAX + 1,
        forall|i: int| 0 <= i < es.len() ==> (#[trigger] es[i]).0 == base + i,
    ensures
        max_entry_offset(es) == base + es.len() - 1,
    decreases es.len(),
{
    if es.len() > 1 {
        let es2 = es.drop_last();
        assert(forall|i: int| 0 <= i < es2.len() ==> (#[trigger] es2[i]).0 == base + i);
        lemma_max_of_dense(es2, base);
    }
}

/// A segment: a store and an index under one base offset, with the
/// capacity caps that decide when the segment is full.
pub struct Segment {
    store: Store,
    index: Index,
    base_offset: u64,
    next_offset: u64,
    max_store_bytes: u64,
    max_index_entries: u64,
}

impl Segment {
    /// The records in the segment's store, in append order.
    pub closed spec fn recs(self) -> Seq<Seq<u8>> {
        self.store.recs()
    }

    /// The entries in the segment's index, in insertion order.
    pub closed spec fn entries(self) -> Seq<(u64, u64)> {
        self.index@
    }

    /// The first offset this segment may hold.
    pub closed spec fn base_spec(self) -> u64 {
        self.base_offset
    }

    /// The offset the next append to this segment would be assigned.
    pub closed spec fn next_spec(self) -> u64 {
        self.next_offset
    }

    /// The byte cap at which the segment counts as full.
    pub closed spec fn max_store_bytes_spec(self) -> u64 {
        self.max_store_bytes
    }

    /// The entry cap at which the segment counts as full.
    pub closed spec fn max_index_entries_spec(self) -> u64 {
        self.max_index_entries
    }

    /// The byte size of the segment's store.
    pub open spec fn store_size_spec(self) -> int {
        encode_records(self.recs()).len() as int
    }

    /// Structural soundness: the store is well-framed and the index within
    /// machine bounds. Holds of every segment the crate hands out.
    pub closed spec fn inv(self) -> bool {
        &&& self.store.wf()
        &&& self.index.wf()
    }

    /// Full coherence of a segment: the index densely maps the offsets
    /// `base..next` to the record start positions in the store, in order.
    /// Holds of freshly created segments and is preserved by appends; a
    /// segment reopened from arbitrary bytes need not satisfy it.
    pub open spec fn wf(self) -> bool {
        &&& self.inv()
        &&& self.entries().len() == self.recs().len()
        &&& self.next_spec() == self.base_spec() + self.recs().len()
        &&& forall|i: int| 0 <= i < self.entries().len()
                ==> (#[trigger] self.entries()[i]).0 == self.base_spec() + i
        &&& forall|i: int| 0 <= i < self.entries().len()
                ==> (#[trigger] self.entries()[i]).1 == record_start(self.recs(), i)
    }

    /// Whether the segment has hit its byte cap or its entry cap.
    pub open spec fn is_full_spec(self) -> bool {
        self.store_size_spec() >= self.max_store_bytes_spec()
            || self.entries().len() >= self.max_index_entries_spec()
    }

    /// Opens a segment from the raw contents of its store and index files.
    /// The next offset is one past the highest offset in the index, or the
    /// base offset if the index is empty; an index entry whose offset is
    /// the largest 64-bit value has no successor and is rejected as
    /// corrupt.
    #[verifier::loop_isolation(false)]
    pub fn new(
        store_bytes: Vec<u8>,
        index_bytes: Vec<u8>,
        base_offset: u64,
        max_store_bytes: u64,
        max_index_entries: u64,
    ) -> (r: Result<Segment, SegmentError>)
        ensures
            ({
                let recs = parse_records(store_bytes@, 0);
                let es = parse_entries(index_bytes@);
                &&& (r is Ok <==> !has_max_offset_entry(es))
                &&& (r matches Err(e) ==> (
                        e matches SegmentError::Index(IndexError::CorruptedEntry { position })
                            && position < es.len()
                            && es[position as int].0 == u64::MAX
                            && (forall|j: int| 0 <= j < position
                                    ==> (#[trigger] es[j]).0 != u64::MAX)
                    ))
                &&& (r matches Ok(seg) ==> {
                        &&& seg.recs() == recs
                        &&& seg.entries() == es
                        &&& seg.base_spec() == base_offset
                        &&& seg.max_store_bytes_spec() == max_store_bytes
                        &&& seg.max_index_entries_spec() == max_index_entries
                        &&& seg.next_spec() == if es.len() == 0 {
                                base_offset as int
                            } else {
                                max_entry_offset(es) + 1
                            }
                        &&& seg.inv()
                    })
            }),
    {
        let ghost es = parse_entries(index_bytes@);
        let store = Store::new(store_bytes);
        let index = Index::new(index_bytes);
        let n = index.len();
        let mut next_offset = base_offset;
        if n > 0 {
            let mut highest: u64 = 0;
            let mut i: u64 = 0;
            while i < n
                invariant
                    i <= n,
                    n == es.len(),
                    index@ == es,
                    forall|j: int| 0 <= j < i ==> (#[trigger] es[j]).0 != u64::MAX,
                    i > 0 ==> highest == max_entry_offset(es.take(i as int))
                        && highest < u64::MAX,
                decreases n - i,
            {
                let off = match index.read_offset_at_index(i) {
                    Ok(o) => o,
                    Err(e) => {
                        return Err(SegmentError::Index(e));
                    },
                };
                if off == u64::MAX {
                    proof {
                        assert(has_max_offset_entry(es)) by {
                            assert((es[i as int]).0 == u64::MAX);
                        }
                    }
                    return Err(SegmentError::Index(IndexError::CorruptedEntry { position: i }));
                }
                proof {
                    assert(es.take(i + 1).last() == es[i as int]);
                    assert(es.take(i + 1).drop_last() =~= es.take(i as int));
                    if i == 0 {
                        assert(es.take(1)[0] == es[0]);
                    }
                }
                if i == 0 {
                    highest = off;
                } else if off > highest {
                    highest = off;
                }
                i = i + 1;
            }
            proof {
                assert(es.take(n as int) =~= es);
            }
            next_offset = highest + 1;
        }
        Ok(Segment { store, index, base_offset, next_offset, max_store_bytes, max_index_entries })
    }

    /// Appends one record: refuses with `SegmentFull` when a cap has been
    /// hit, otherwise writes the record to the store, records its offset
    /// and position in the index, and returns the assigned offset.
    pub fn append(&mut self, data: &[u8]) -> (r: Result<u64, SegmentError>)
        requires
            old(self).inv(),
            !old(self).is_full_spec() ==> ({
                &&& old(self).next_spec() < u64::MAX
                &&& old(self).store_size_spec() + 8 + data@.len() <= u64::MAX
                &&& 16 * (old(self).entries().len() + 1) <= u64::MAX
            }),
        ensures
            final(self).inv(),
            old(self).is_full_spec() ==> (
                r == Err::<u64, SegmentError>(SegmentError::SegmentFull {
                    base_offset: old(self).base_spec(),
                    max_size: old(self).max_store_bytes_spec(),
                    current_size: old(self).store_size_spec() as u64,
                }) && *final(self) == *old(self)
            ),
            !old(self).is_full_spec() ==> ({
                &&& r == Ok::<u64, SegmentError>(old(self).next_spec())
                &&& final(self).recs() == old(self).recs().push(data@)
                &&& final(self).entries() == old(self).entries().push(
                        (old(self).next_spec(), old(self).store_size_spec() as u64),
                    )
                &&& final(self).next_spec() == old(self).next_spec() + 1
                &&& final(self).base_spec() == old(self).base_spec()
                &&& final(self).max_store_bytes_spec() == old(self).max_store_bytes_spec()
                &&& final(self).max_index_entries_spec() == old(self).max_index_entries_spec()
                &&& (old(self).wf() ==> final(self).wf())
            }),
    {
        if self.is_full() {
            return Err(SegmentError::SegmentFull {
                base_offset: self.base_offset,
                max_size: self.max_store_bytes,
                current_size: self.store.size(),
            });
        }
        let offset = self.next_offset;
        let position = match self.store.append(data) {
            Ok((p, _)) => p,
            Err(e) => {
                return Err(SegmentError::Storage(e));
            },
        };
        match self.index.write(offset, position) {
            Ok(()) => {},
            Err(e) => {
                return Err(SegmentError::Index(e));
            },
        };
        self.next_offset = offset + 1;
        proof {
            if old(self).wf() {
                lemma_encode_records_push(old(self).recs(), data@);
                assert forall|i: int| 0 <= i < self.entries().len()
                    implies (#[trigger] self.entries()[i]).1 == record_start(self.recs(), i) by {
                    if i < old(self).entries().len() {
                        assert(self.recs().take(i) =~= old(self).recs().take(i));
                        assert(self.entries()[i] == old(self).entries()[i]);
                    } else {
                        assert(self.recs().take(i) =~= old(self).recs());
                    }
                }
            }
        }
        Ok(offset)
    }

    /// Reads the record at `offset`: refuses offsets outside
    /// `base..next`, then resolves the offset through the index and reads
    /// the store at the recorded position.
    pub fn read(&self, offset: u64) -> (r: Result<Vec<u8>, SegmentError>)
        requires
            self.inv(),
        ensures
            ((offset < self.base_spec() || offset >= self.next_spec())
                <==> r == Err::<Vec<u8>, SegmentError>(SegmentError::OffsetOutOfRange {
                    offset,
                    base_offset: self.base_spec(),
                    next_offset: self.next_spec(),
                })),
            (self.base_spec() <= offset < self.next_spec()
                && lookup(self.entries(), offset) is None)
                ==> r == Err::<Vec<u8>, SegmentError>(SegmentError::Index(
                        IndexError::OffsetNotFound { offset },
                    )),
            (self.base_spec() <= offset < self.next_spec()
                && lookup(self.entries(), offset) matches Some(p)) ==> ({
                let bytes = encode_records(self.recs());
                let size = bytes.len() as int;
                let p = lookup(self.entries(), offset)->Some_0;
                &&& (p >= size ==> r == Err::<Vec<u8>, SegmentError>(SegmentError::Storage(
                        StorageError::ReadBeyondEnd { position: p, size: size as u64 },
                    )))
                &&& (p < size && p + 8 > size ==> (
                        r matches Err(SegmentError::Storage(
                            StorageError::CorruptedRecord { position, .. },
                        )) && position == p
                    ))
                &&& (p + 8 <= size ==> ({
                        let l = spec_u64_from_le_bytes(bytes.subrange(p as int, p + 8)) as int;
                        &&& (p + 8 + l > size ==> (
                                r matches Err(SegmentError::Storage(
                                    StorageError::CorruptedRecord { position, .. },
                                )) && position == p
                            ))
                        &&& (p + 8 + l <= size ==> (
                                r matches Ok(d) && d@ == bytes.subrange(p + 8, p + 8 + l)
                            ))
                    }))
            }),
            (self.wf() && self.base_spec() <= offset < self.next_spec()) ==> (
                r matches Ok(d) && d@ == self.recs()[offset - self.base_spec()]
            ),
    {
        if offset < self.base_offset || offset >= self.next_offset {
            return Err(SegmentError::OffsetOutOfRange {
                offset,
                base_offset: self.base_offset,
                next_offset: self.next_offset,
            });
        }
        let store_size = self.store.size();
        proof {
            if self.wf() {
                let k = offset - self.base_spec();
                lemma_lookup_dense(self.entries(), self.base_spec(), offset);
                assert(self.store_size_spec() <= u64::MAX);
                lemma_read_at_record_start(self.recs(), k);
            }
        }
        let position = match self.index.read(offset) {
            Ok(p) => p,
            Err(e) => {
                return Err(SegmentError::Index(e));
            },
        };
        match self.store.read(position) {
            Ok((data, _)) => Ok(data),
            Err(e) => Err(SegmentError::Storage(e)),
        }
    }

    /// The base offset: the first offset of this segment.
    pub fn base_offset(&self) -> (r: u64)
        ensures
            r == self.base_spec(),
    {
        self.base_offset
    }

    /// The offset the next append would be assigned.
    pub fn next_offset(&self) -> (r: u64)
        ensures
            r == self.next_spec(),
    {
        self.next_offset
    }

    /// Whether `offset` falls in this segment's range `base..next`.
    pub fn contains_offset(&self, offset: u64) -> (r: bool)
        ensures
            r == (self.base_spec() <= offset < self.next_spec()),
    {
        offset >= self.base_offset && offset < self.next_offset
    }

    /// Whether the segment has hit its byte cap or its entry cap and
    /// should be rotated.
    pub fn is_full(&self) -> (r: bool)
        requires
            self.inv(),
        ensures
            r == self.is_full_spec(),
    {
        self.store.size() >= self.max_store_bytes || self.index.len() >= self.max_index_entries
    }

    /// The byte size of the segment's store.
    pub fn store_size(&self) -> (r: u64)
        requires
            self.inv(),
        ensures
            r == self.store_size_spec(),
    {
        self.store.size()
    }

    /// The number of entries in the segment's index.
    pub fn index_entries(&self) -> (r: u64)
        ensures
            r == self.entries().len(),
    {
        self.index.len()
    }

    /// Whether the segment holds no records.
    pub fn is_empty(&self) -> (r: bool)
        ensures
            r == (self.entries().len() == 0),
    {
        self.index.is_empty()
    }

    /// The raw bytes of the segment's store file.
    pub fn store_file_bytes(&self) -> (r: &Vec<u8>)
        requires
            self.inv(),
        ensures
            r@ == encode_records(self.recs()),
    {
        self.store.file_bytes()
    }

    /// The raw bytes of the segment's index file.
    pub fn index_file_bytes(&self) -> (r: Vec<u8>)
        requires
            self.inv(),
        ensures
            r@ == encode_entries(self.entries()),
    {
        self.index.file_bytes()
    }
}

/// Segment persistence law: reopening a coherent segment from the bytes of
/// its store and index files recovers the same records and entries, and
/// recomputes the same next offset, provided every record is within the
/// recovery scan's sanity bound.
pub proof fn lemma_segment_reopen(s: Segment)
    requires
        s.wf(),
        forall|i: int| 0 <= i < s.recs().len() ==> (#[trigger] s.recs()[i]).len() <= MAX_RECORD_LEN,
    ensures
        parse_records(encode_records(s.recs()), 0) == s.recs(),
        parse_entries(encode_entries(s.entries())) == s.entries(),
        !has_max_offset_entry(s.entries()),
        s.entries().len() > 0 ==> max_entry_offset(s.entries()) + 1 == s.next_spec(),
        s.entries().len() == 0 ==> s.next_spec() == s.base_spec(),
{
    lemma_store_reopen(s.recs());
    lemma_index_reopen(s.entries());
    if s.entries().len() > 0 {
        lemma_max_of_dense(s.entries(), s.base_spec());
    }
}

} // verus!
