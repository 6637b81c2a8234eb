//! The offset index: a file of fixed-width entries mapping a record's
//! logical offset to its byte position in the paired store.
//!
//! Each entry is 16 bytes: an 8-byte little-endian offset followed by an
//! 8-byte little-endian position. Entries are kept in insertion order, not
//! sorted by offset, because records may arrive out of offset order under
//! future replication; lookups therefore scan linearly for the first match.
//! On open, a file whose length is not a multiple of the entry width is cut
//! back to the largest multiple (a torn index write is discarded).

use vstd::prelude::*;
use vstd::bytes::{spec_u64_to_le_bytes, spec_u64_from_le_bytes, u64_to_le_bytes, u64_from_le_bytes,
    lemma_auto_spec_u64_to_from_le_bytes};
use crate::errors::IndexError;

verus! {

/// Width in bytes of one index entry: 8 bytes of offset, 8 of position.
pub const ENTRY_WIDTH: u64 = 16;

/// On-disk encoding of one `(offset, position)` entry.
pub open spec fn encode_entry(e: (u64, u64)) -> Seq<u8> {
    spec_u64_to_le_bytes(e.0) + spec_u64_to_le_bytes(e.1)
}

/// On-disk encoding of a sequence of entries, back to back.
pub open spec fn encode_entries(es: Seq<(u64, u64)>) -> Seq<u8>
    decreases es.len(),
{
    if es.len() == 0 {
        Seq::empty()
    } else {
        encode_entry(es[0]) + encode_entries(es.drop_first())
    }
}

/// The entries held by an index file's raw contents: one entry per full
/// 16-byte slot, a trailing partial slot ignored.
pub open spec fn parse_entries(bytes: Seq<u8>) -> Seq<(u64, u64)> {
    Seq::new((bytes.len() / 16) as nat, |i: int| (
        spec_u64_from_le_bytes(bytes.subrange(16 * i, 16 * i + 8)),
        spec_u64_from_le_bytes(bytes.subrange(16 * i + 8, 16 * i + 16)),
    ))
}

/// The position of the first entry whose offset field equals `offset`.
pub open spec fn lookup(es: Seq<(u64, u64)>, offset: u64) -> Option<u64>
    decreases es.len(),
{
    if es.len() == 0 {
        None
    } else if es[0].0 == offset {
        Some(es[0].1)
    } else {
        lookup(es.drop_first(), offset)
    }
}

pub proof fn lemma_encode_entries_len(es: Seq<(u64, u64)>)
    ensures
        encode_entries(es).len() == 16 * es.len(),
    decreases es.len(),
{
    lemma_auto_spec_u64_to_from_le_bytes();
    if es.len() > 0 {
        lemma_encode_entries_len(es.drop_first());
    }
}

/// Appending one entry to a sequence appends its encoding to the bytes.
pub proof fn lemma_encode_entries_push(es: Seq<(u64, u64)>, e: (u64, u64))
    ensures
        encode_entries(es.push(e)) == encode_entries(es) + encode_entry(e),
    decreases es.len(),
{
    if es.len() == 0 {
        assert(es.push(e).drop_first() =~= Seq::<(u64, u64)>::empty());
        assert(es.push(e)[0] == e);
        assert(encode_entries(es.push(e))
            == encode_entry(e) + encode_entries(Seq::<(u64, u64)>::empty()));
        assert(encode_entries(es.push(e)) =~= encode_entries(es) + encode_entry(e));
    } else {
        assert(es.push(e).drop_first() =~= es.drop_first().push(e));
        lemma_encode_entries_push(es.drop_first(), e);
        assert(encode_entries(es.push(e)) =~= encode_entries(es) + encode_entry(e));
    }
}

/// Reopening a cleanly persisted index recovers exactly its entries.
pub proof fn lemma_index_reopen(es: Seq<(u64, u64)>)
    ensures
        parse_entries(encode_entries(es)) == es,
    decreases es.len(),
{
    lemma_auto_spec_u64_to_from_le_bytes();
    lemma_encode_entries_len(es);
    let bytes = encode_entries(es);
    if es.len() == 0 {
        assert(parse_entries(bytes) =~= es);
    } else {
        let a = encode_entry(es[0]);
        let rest = encode_entries(es.drop_first());
        lemma_index_reopen(es.drop_first());
        lemma_encode_entries_len(es.drop_first());
        assert(bytes.subrange(0, 8) =~= spec_u64_to_le_bytes(es[0].0));
        assert(bytes.subrange(8, 16) =~= spec_u64_to_le_bytes(es[0].1));
        assert forall|i: int| 1 <= i < es.len() implies #[trigger] parse_entries(bytes)[i]
            == es[i] by {
            assert(bytes.subrange(16 * i, 16 * i + 8)
                =~= rest.subrange(16 * (i - 1), 16 * (i - 1) + 8));
            assert(bytes.subrange(16 * i + 8, 16 * i + 16)
                =~= rest.subrange(16 * (i - 1) + 8, 16 * (i - 1) + 16));
            assert(parse_entries(rest)[i - 1] == es.drop_first()[i - 1]);
        }
        assert(parse_entries(bytes) =~= es);
    }
}

/// An offset index held in memory: the decoded entries of the backing
/// file, in insertion order.
pub struct Index {
    entries: Vec<(u64, u64)>,
}

impl View for Index {
    type V = Seq<(u64, u64)>;

    closed spec fn view(&self) -> Seq<(u64, u64)> {
        self.entries@
    }
}

impl Index {
    /// Well-formedness: the entry count stays far enough from the machine
    /// limit that byte sizes fit in 64 bits.
    pub open spec fn wf(self) -> bool {
        16 * self@.len() <= u64::MAX
    }

    /// Opens an index from the raw contents of its file, discarding a
    /// trailing partial entry.
    pub fn new(file_bytes: Vec<u8>) -> (ix: Index)
        ensures
            ix@ == parse_entries(file_bytes@),
            ix.wf(),
    {
        let n = file_bytes.len() / 16;
        let mut entries: Vec<(u64, u64)> = Vec::new();
        let mut i: usize = 0;
        proof {
            vstd::arithmetic::div_mod::lemma_fundamental_div_mod(file_bytes@.len() as int, 16);
            assert(16 * (file_bytes@.len() / 16) <= file_bytes@.len());
            assert(parse_entries(file_bytes@).len() == n);
            assert(parse_entries(file_bytes@).take(0) =~= Seq::<(u64, u64)>::empty());
        }
        while i < n
            invariant
                i <= n,
                n == file_bytes@.len() / 16,
                16 * n <= file_bytes@.len(),
                16 * n <= usize::MAX,
                entries@ =~= parse_entries(file_bytes@).take(i as int),
            decreases n - i,
        {
            let off = u64_from_le_bytes(&file_bytes.as_slice()[16 * i..16 * i + 8]);
            let pos = u64_from_le_bytes(&file_bytes.as_slice()[16 * i + 8..16 * i + 16]);
            entries.push((off, pos));
            proof {
                assert(parse_entries(file_bytes@)[i as int] == (off, pos));
                assert(parse_entries(file_bytes@).take(i as int).push((off, pos))
                    =~= parse_entries(file_bytes@).take(i + 1));
            }
            i = i + 1;
        }
        proof {
            assert(parse_entries(file_bytes@).take(n as int) =~= parse_entries(file_bytes@));
        }
        Index { entries }
    }

    /// The number of entries in the index.
    pub fn len(&self) -> (r: u64)
        ensures
            r == self@.len(),
    {
        self.entries.len() as u64
    }

    /// Whether the index holds no entries.
    pub fn is_empty(&self) -> (r: bool)
        ensures
            r == (self@.len() == 0),
    {
        self.entries.len() == 0
    }

    /// The index's size in bytes: 16 bytes per entry.
    pub fn size(&self) -> (r: u64)
        requires
            self.wf(),
        ensures
            r == 16 * self@.len(),
    {
        (self.entries.len() as u64) * ENTRY_WIDTH
    }

    /// Appends an entry mapping `offset` to `position` in the store.
    pub fn write(&mut self, offset: u64, position: u64) -> (r: Result<(), IndexError>)
        requires
            16 * (old(self)@.len() + 1) <= u64::MAX,
        ensures
            r == Ok::<(), IndexError>(()),
            final(self)@ == old(self)@.push((offset, position)),
            final(self).wf(),
    {
        self.entries.push((offset, position));
        Ok(())
    }

    /// Looks up the position recorded for `offset`: a linear scan for the
    /// first entry with that offset, failing with `OffsetNotFound` if no
    /// entry matches.
    pub fn read(&self, offset: u64) -> (r: Result<u64, IndexError>)
        ensures
            match lookup(self@, offset) {
                Some(p) => r == Ok::<u64, IndexError>(p),
                None => r == Err::<u64, IndexError>(IndexError::OffsetNotFound { offset }),
            },
    {
        let n = self.entries.len();
        let mut i: usize = 0;
        proof {
            assert(self@.skip(0) =~= self@);
        }
        while i < n
            invariant
                i <= n,
                n == self@.len(),
                lookup(self@, offset) == lookup(self@.skip(i as int), offset),
            decreases n - i,
        {
            let e = self.entries[i];
            proof {
                assert(self@.skip(i as int)[0] == self@[i as int]);
                assert(self@.skip(i as int).drop_first() =~= self@.skip(i + 1));
            }
            if e.0 == offset {
                return Ok(e.1);
            }
            i = i + 1;
        }
        proof {
            assert(self@.skip(n as int) =~= Seq::<(u64, u64)>::empty());
        }
        Err(IndexError::OffsetNotFound { offset })
    }

    /// The offset field of the entry at slot `i`, used to recompute the
    /// next offset when a segment is reopened.
    pub(crate) fn read_offset_at_index(&self, i: u64) -> (r: Result<u64, IndexError>)
        ensures
            i < self@.len() ==> r == Ok::<u64, IndexError>(self@[i as int].0),
            i >= self@.len() ==> r == Err::<u64, IndexError>(
                IndexError::CorruptedEntry { position: i },
            ),
    {
        if i >= self.entries.len() as u64 {
            return Err(IndexError::CorruptedEntry { position: i });
        }
        Ok(self.entries[i as usize].0)
    }

    /// The position field of the entry at slot `i`.
    pub(crate) fn read_position_at_index(&self, i: u64) -> (r: Result<u64, IndexError>)
        ensures
            i < self@.len() ==> r == Ok::<u64, IndexError>(self@[i as int].1),
            i >= self@.len() ==> r == Err::<u64, IndexError>(
                IndexError::CorruptedEntry { position: i },
            ),
    {
        if i >= self.entries.len() as u64 {
            return Err(IndexError::CorruptedEntry { position: i });
        }
        Ok(self.entries[i as usize].1)
    }

    /// Capacity policy for growing the backing mapping: at least double
    /// it, and leave room for a thousand more entries.
    pub fn grow(current_capacity: u64) -> (r: u64)
        requires
            current_capacity <= u64::MAX / 2,
        ensures
            r == if 2 * current_capacity >= current_capacity + 16000 {
                (2 * current_capacity) as u64
            } else {
                (current_capacity + 16000) as u64
            },
    {
        let doubled = current_capacity * 2;
        let target = current_capacity + 16000;
        if doubled >= target {
            doubled
        } else {
            target
        }
    }

    /// Initial capacity of the backing mapping: the valid file length, but
    /// at least room for a thousand entries.
    pub fn initial_capacity(valid_size: u64) -> (r: u64)
        ensures
            r == if valid_size >= 16000 { valid_size } else { 16000 as u64 },
    {
        if valid_size >= 16000 {
            valid_size
        } else {
            16000
        }
    }

    /// Encodes the entries back into file bytes, for the embedding
    /// application to mirror onto the backing file.
    pub fn file_bytes(&self) -> (r: Vec<u8>)
        requires
            self.wf(),
        ensures
            r@ == encode_entries(self@),
    {
        let n = self.entries.len();
        let mut out: Vec<u8> = Vec::new();
        let mut i: usize = 0;
        proof {
            assert(self@.take(0) =~= Seq::<(u64, u64)>::empty());
        }
        while i < n
            invariant
                i <= n,
                n == self@.len(),
                out@ == encode_entries(self@.take(i as int)),
            decreases n - i,
        {
            let e = self.entries[i];
            let off_bytes = u64_to_le_bytes(e.0);
            let pos_bytes = u64_to_le_bytes(e.1);
            append_entry_bytes(&mut out, &off_bytes, &pos_bytes);
            proof {
                lemma_encode_entries_push(self@.take(i as int), e);
                assert(self@.take(i as int).push(self@[i as int]) =~= self@.take(i + 1));
            }
            i = i + 1;
        }
        proof {
            assert(self@.take(n as int) =~= self@);
        }
        out
    }
}

/// Index entry width law: the index's byte size is 16 bytes per entry.
pub proof fn lemma_index_entry_width(ix: Index)
    ensures
        encode_entries(ix@).len() == 16 * ix@.len(),
{
    lemma_encode_entries_len(ix@);
}

/// Appends two 8-byte halves of one entry to `out`.
fn append_entry_bytes(out: &mut Vec<u8>, a: &Vec<u8>, b: &Vec<u8>)
    ensures
        final(out)@ == old(out)@ + a@ + b@,
{
    let mut i: usize = 0;
    while i < a.len()
        invariant
            i <= a@.len(),
            out@ == old(out)@ + a@.take(i as int),
        decreases a@.len() - i,
    {
        out.push(a[i]);
        proof {
            assert(old(out)@ + a@.take(i as int) + seq![a@[i as int]]
                =~= old(out)@ + a@.take(i + 1));
        }
        i = i + 1;
    }
    proof {
        assert(a@.take(a@.len() as int) =~= a@);
    }
    let mut j: usize = 0;
    while j < b.len()
        invariant
            j <= b@.len(),
            out@ == old(out)@ + a@ + b@.take(j as int),
        decreases b@.len() - j,
    {
        out.push(b[j]);
        proof {
            assert(old(out)@ + a@ + b@.take(j as int) + seq![b@[j as int]]
                =~= old(out)@ + a@ + b@.take(j + 1));
        }
        j = j + 1;
    }
    proof {
        assert(b@.take(b@.len() as int) =~= b@);
    }
}

} // verus!
