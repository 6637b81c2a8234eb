//! The record store: an append-only, length-prefixed byte file.
//!
//! On disk a store is a concatenation of records, each encoded as an 8-byte
//! little-endian length prefix followed by that many payload bytes. There is
//! no header, no trailer and no per-record checksum: correct framing is the
//! whole integrity model. On open, a recovery scan walks the framing from
//! the front and discards a torn tail (a record cut short by a crash).
//!
//! The engine holds the valid region of the file in memory; the embedding
//! application mirrors it onto a memory-mapped file and feeds the file's
//! contents back in on the next open.

use vstd::prelude::*;
use vstd::bytes::{spec_u64_to_le_bytes, spec_u64_from_le_bytes, u64_to_le_bytes, u64_from_le_bytes,
    lemma_auto_spec_u64_to_from_le_bytes};
use vstd::slice::slice_to_vec;
use crate::errors::StorageError;

verus! {

/// Width in bytes of the little-endian length prefix in front of each
/// record.
pub const LEN_WIDTH: u64 = 8;

/// Sanity bound of the recovery scan: a declared record length above this is
/// treated as corruption.
pub const MAX_RECORD_LEN: u64 = 100 * 1024 * 1024;

/// On-disk encoding of one record: 8-byte little-endian length, then payload.
pub open spec fn encode_record(data: Seq<u8>) -> Seq<u8> {
    spec_u64_to_le_bytes(data.len() as u64) + data
}

/// On-disk encoding of a sequence of records, back to back.
pub open spec fn encode_records(rs: Seq<Seq<u8>>) -> Seq<u8>
    decreases rs.len(),
{
    if rs.len() == 0 {
        Seq::empty()
    } else {
        encode_record(rs[0]) + encode_records(rs.drop_first())
    }
}

/// Total on-disk size of a sequence of records: the sum of `8 + len` over
/// the records.
pub open spec fn encoded_size(rs: Seq<Seq<u8>>) -> int
    decreases rs.len(),
{
    if rs.len() == 0 {
        0
    } else {
        8 + rs[0].len() + encoded_size(rs.drop_first())
    }
}

/// Byte position within `encode_records(rs)` at which record `i` starts.
pub open spec fn record_start(rs: Seq<Seq<u8>>, i: int) -> int {
    encode_records(rs.take(i)).len() as int
}

/// End position of the recovery scan started at `from`: the scan repeatedly
/// reads a length prefix and skips the declared record, stopping where fewer
/// than 8 bytes remain, where the declared record would run past the end of
/// the bytes, or where the declared length exceeds the sanity bound.
pub open spec fn scan_end(bytes: Seq<u8>, from: int) -> int
    decreases bytes.len() - from,
{
    if from < 0 || from + 8 > bytes.len() {
        from
    } else {
        let l = spec_u64_from_le_bytes(bytes.subrange(from, from + 8)) as int;
        if l > MAX_RECORD_LEN || from + 8 + l > bytes.len() {
            from
        } else {
            scan_end(bytes, from + 8 + l)
        }
    }
}

/// The records found by the recovery scan started at `from`.
pub open spec fn parse_records(bytes: Seq<u8>, from: int) -> Seq<Seq<u8>>
    decreases bytes.len() - from,
{
    if from < 0 || from + 8 > bytes.len() {
        Seq::empty()
    } else {
        let l = spec_u64_from_le_bytes(bytes.subrange(from, from + 8)) as int;
        if l > MAX_RECORD_LEN || from + 8 + l > bytes.len() {
            Seq::empty()
        } else {
            seq![bytes.subrange(from + 8, from + 8 + l)] + parse_records(bytes, from + 8 + l)
        }
    }
}

/// A byte tail that does not begin a complete well-formed record: it is
/// shorter than a length prefix, or declares a length above the sanity
/// bound, or declares a record that runs past its end.
pub open spec fn torn_tail(tail: Seq<u8>) -> bool {
    ||| tail.len() < 8
    ||| spec_u64_from_le_bytes(tail.subrange(0, 8)) > MAX_RECORD_LEN
    ||| 8 + spec_u64_from_le_bytes(tail.subrange(0, 8)) > tail.len()
}

pub proof fn lemma_encode_record_len(data: Seq<u8>)
    ensures
        encode_record(data).len() == 8 + data.len(),
{
    lemma_auto_spec_u64_to_from_le_bytes();
}

/// The length of an encoding is the sum of `8 + len` over the records.
pub proof fn lemma_encoded_size(rs: Seq<Seq<u8>>)
    ensures
        encode_records(rs).len() == encoded_size(rs),
    decreases rs.len(),
{
    if rs.len() > 0 {
        lemma_encode_record_len(rs[0]);
        lemma_encoded_size(rs.drop_first());
    }
}

/// Appending one record to a sequence appends its encoding to the bytes.
pub proof fn lemma_encode_records_push(rs: Seq<Seq<u8>>, r: Seq<u8>)
    ensures
        encode_records(rs.push(r)) == encode_records(rs) + encode_record(r),
    decreases rs.len(),
{
    if rs.len() == 0 {
        assert(rs.push(r).drop_first() =~= Seq::<Seq<u8>>::empty());
        assert(rs.push(r)[0] == r);
        assert(encode_records(rs.push(r))
            == encode_record(r) + encode_records(Seq::<Seq<u8>>::empty()));
        assert(encode_records(rs.push(r)) =~= encode_records(rs) + encode_record(r));
    } else {
        assert(rs.push(r).drop_first() =~= rs.drop_first().push(r));
        lemma_encode_records_push(rs.drop_first(), r);
        assert(encode_records(rs.push(r)) =~= encode_records(rs) + encode_record(r));
    }
}

/// Unfolding an encoding from the front.
pub proof fn lemma_encode_records_cons(r: Seq<u8>, rs: Seq<Seq<u8>>)
    ensures
        encode_records(seq![r] + rs) == encode_record(r) + encode_records(rs),
{
    assert((seq![r] + rs).drop_first() =~= rs);
    assert((seq![r] + rs)[0] == r);
}

/// The scan and the parse only look at bytes from `from` onward, so a
/// common prefix can be cut off.
proof fn lemma_scan_shift(a: Seq<u8>, b: Seq<u8>, from: int)
    requires
        0 <= from,
    ensures
        scan_end(a + b, a.len() + from) == a.len() + scan_end(b, from),
        parse_records(a + b, a.len() + from) == parse_records(b, from),
    decreases b.len() - from,
{
    let ab = a + b;
    let here = a.len() + from;
    if from + 8 > b.len() {
        assert(scan_end(ab, here) == here);
        assert(parse_records(ab, here) =~= parse_records(b, from));
    } else {
        assert(ab.subrange(here, here + 8) =~= b.subrange(from, from + 8));
        let l = spec_u64_from_le_bytes(b.subrange(from, from + 8)) as int;
        if l > MAX_RECORD_LEN || from + 8 + l > b.len() {
            assert(scan_end(ab, here) == here);
            assert(parse_records(ab, here) =~= parse_records(b, from));
        } else {
            lemma_scan_shift(a, b, from + 8 + l);
            assert(ab.subrange(here + 8, here + 8 + l) =~= b.subrange(from + 8, from + 8 + l));
            assert(parse_records(ab, here) =~= parse_records(b, from));
        }
    }
}

/// Recovery on a well-framed region followed by a torn tail keeps exactly
/// the well-framed region and recovers exactly its records.
proof fn lemma_scan_of_records(rs: Seq<Seq<u8>>, tail: Seq<u8>)
    requires
        forall|i: int| 0 <= i < rs.len() ==> #[trigger] rs[i].len() <= MAX_RECORD_LEN,
        torn_tail(tail),
    ensures
        scan_end(encode_records(rs) + tail, 0) == encode_records(rs).len(),
        parse_records(encode_records(rs) + tail, 0) == rs,
    decreases rs.len(),
{
    lemma_auto_spec_u64_to_from_le_bytes();
    let bytes = encode_records(rs) + tail;
    if rs.len() == 0 {
        assert(bytes =~= tail);
        assert(scan_end(tail, 0) == 0);
        assert(parse_records(tail, 0) =~= Seq::<Seq<u8>>::empty());
    } else {
        let r0 = rs[0];
        let rest = rs.drop_first();
        let a = encode_record(r0);
        lemma_encode_record_len(r0);
        let b = encode_records(rest) + tail;
        assert(bytes =~= a + b);
        assert(bytes.subrange(0, 8) =~= spec_u64_to_le_bytes(r0.len() as u64));
        let l = spec_u64_from_le_bytes(bytes.subrange(0, 8)) as int;
        assert(l == r0.len());
        lemma_encoded_size(rest);
        assert(bytes.len() >= 8 + l);
        lemma_scan_of_records(rest, tail);
        lemma_scan_shift(a, b, 0);
        assert(scan_end(bytes, 8 + l) == a.len() + scan_end(b, 0));
        assert(scan_end(bytes, 0) == encode_records(rs).len());
        assert(bytes.subrange(8, 8 + l) =~= r0);
        assert(parse_records(bytes, 0) == seq![r0] + parse_records(bytes, 8 + l));
        assert(parse_records(bytes, 0) =~= rs);
    }
}

/// Reopening a cleanly persisted store recovers all of it: the scan keeps
/// every byte and the parse returns the records as appended.
pub proof fn lemma_store_reopen(rs: Seq<Seq<u8>>)
    requires
        forall|i: int| 0 <= i < rs.len() ==> #[trigger] rs[i].len() <= MAX_RECORD_LEN,
    ensures
        scan_end(encode_records(rs), 0) == encode_records(rs).len(),
        parse_records(encode_records(rs), 0) == rs,
{
    lemma_scan_of_records(rs, Seq::empty());
    assert(encode_records(rs) + Seq::<u8>::empty() =~= encode_records(rs));
}

/// Torn-write safety: a bogus partial record appended to a well-framed
/// store file is discarded entirely by the recovery scan, and every
/// committed record survives.
pub proof fn lemma_recovery_discards_torn_tail(rs: Seq<Seq<u8>>, tail: Seq<u8>)
    requires
        forall|i: int| 0 <= i < rs.len() ==> #[trigger] rs[i].len() <= MAX_RECORD_LEN,
        torn_tail(tail),
    ensures
        scan_end(encode_records(rs) + tail, 0) == encode_records(rs).len(),
        parse_records(encode_records(rs) + tail, 0) == rs,
{
    lemma_scan_of_records(rs, tail);
}

/// What the scan keeps is itself a well-framed encoding of what the parse
/// returns, with every record within the sanity bound.
pub proof fn lemma_scan_parse_consistent(bytes: Seq<u8>, from: int)
    requires
        0 <= from <= bytes.len(),
    ensures
        from <= scan_end(bytes, from) <= bytes.len(),
        encode_records(parse_records(bytes, from)) == bytes.subrange(from, scan_end(bytes, from)),
        forall|i: int| 0 <= i < parse_records(bytes, from).len()
            ==> #[trigger] parse_records(bytes, from)[i].len() <= MAX_RECORD_LEN,
    decreases bytes.len() - from,
{
    lemma_auto_spec_u64_to_from_le_bytes();
    if from + 8 > bytes.len() {
        assert(encode_records(parse_records(bytes, from)) =~= bytes.subrange(from, from));
    } else {
        let l = spec_u64_from_le_bytes(bytes.subrange(from, from + 8)) as int;
        if l > MAX_RECORD_LEN || from + 8 + l > bytes.len() {
            assert(encode_records(parse_records(bytes, from)) =~= bytes.subrange(from, from));
        } else {
            lemma_scan_parse_consistent(bytes, from + 8 + l);
            let r0 = bytes.subrange(from + 8, from + 8 + l);
            let rest = parse_records(bytes, from + 8 + l);
            assert(parse_records(bytes, from) == seq![r0] + rest);
            lemma_encode_records_cons(r0, rest);
            assert(spec_u64_to_le_bytes(r0.len() as u64) =~= bytes.subrange(from, from + 8));
            let end = scan_end(bytes, from + 8 + l);
            assert(scan_end(bytes, from) == end);
            assert(encode_record(r0) =~= bytes.subrange(from, from + 8 + l));
            assert(encode_records(parse_records(bytes, from)) =~=
                bytes.subrange(from, scan_end(bytes, from)));
            assert forall|i: int| 0 <= i < parse_records(bytes, from).len()
                implies #[trigger] parse_records(bytes, from)[i].len() <= MAX_RECORD_LEN by {
                if i > 0 {
                    assert(parse_records(bytes, from)[i] == rest[i - 1]);
                }
            }
        }
    }
}

/// Where record `i` lies within an encoding: its length prefix sits at
/// `record_start`, decodes to its length, and its payload follows.
pub proof fn lemma_read_at_record_start(rs: Seq<Seq<u8>>, i: int)
    requires
        0 <= i < rs.len(),
        encode_records(rs).len() <= u64::MAX,
    ensures
        ({
            let bytes = encode_records(rs);
            let p = record_start(rs, i);
            &&& 0 <= p
            &&& p + 8 + rs[i].len() <= bytes.len()
            &&& rs[i].len() <= u64::MAX
            &&& spec_u64_from_le_bytes(bytes.subrange(p, p + 8)) == rs[i].len()
            &&& bytes.subrange(p + 8, p + 8 + rs[i].len()) == rs[i]
        }),
    decreases i,
{
    lemma_auto_spec_u64_to_from_le_bytes();
    let bytes = encode_records(rs);
    let p = record_start(rs, i);
    lemma_encode_record_len(rs[0]);
    if i == 0 {
        assert(rs.take(0) =~= Seq::<Seq<u8>>::empty());
        assert(p == 0);
        let rest = encode_records(rs.drop_first());
        assert(bytes =~= encode_record(rs[0]) + rest);
        assert(bytes.subrange(0, 8) =~= spec_u64_to_le_bytes(rs[0].len() as u64));
        assert(bytes.subrange(8, 8 + rs[0].len() as int) =~= rs[0]);
    } else {
        let rs2 = rs.drop_first();
        let a = encode_record(rs[0]);
        let bytes2 = encode_records(rs2);
        assert(bytes =~= a + bytes2);
        lemma_read_at_record_start(rs2, i - 1);
        assert(rs.take(i) =~= seq![rs[0]] + rs2.take(i - 1));
        lemma_encode_records_cons(rs[0], rs2.take(i - 1));
        let p2 = record_start(rs2, i - 1);
        assert(p == a.len() + p2);
        assert(rs[i] == rs2[i - 1]);
        assert(bytes.subrange(p, p + 8) =~= bytes2.subrange(p2, p2 + 8));
        assert(bytes.subrange(p + 8, p + 8 + rs[i].len())
            =~= bytes2.subrange(p2 + 8, p2 + 8 + rs2[i - 1].len()));
    }
}

/// An append-only record store held in memory: the valid region of the
/// backing file, always a well-framed concatenation of records.
pub struct Store {
    data: Vec<u8>,
    records: Ghost<Seq<Seq<u8>>>,
}

impl Store {
    /// The bytes of the store's valid region.
    pub closed spec fn bytes(self) -> Seq<u8> {
        self.data@
    }

    /// The records held by the store, in append order.
    pub closed spec fn recs(self) -> Seq<Seq<u8>> {
        self.records@
    }

    /// Well-formedness: the bytes are exactly the encoding of the records.
    pub open spec fn wf(self) -> bool {
        self.bytes() == encode_records(self.recs())
    }

    /// The store's logical size in bytes.
    pub open spec fn size_spec(self) -> int {
        self.bytes().len() as int
    }

    /// Opens a store from the raw contents of its file, running the
    /// recovery scan and discarding a torn tail.
    pub fn new(file_bytes: Vec<u8>) -> (s: Store)
        ensures
            s.wf(),
            s.recs() == parse_records(file_bytes@, 0),
            s.bytes() == file_bytes@.subrange(0, scan_end(file_bytes@, 0)),
    {
        let ghost orig = file_bytes@;
        let valid = scan_valid_region(&file_bytes);
        let mut data = file_bytes;
        data.truncate(valid);
        proof {
            lemma_scan_parse_consistent(orig, 0);
        }
        Store { data, records: Ghost(parse_records(orig, 0)) }
    }

    /// Appends one record: writes the length prefix and the payload at the
    /// end and returns the record's position and the total bytes written.
    pub fn append(&mut self, data: &[u8]) -> (r: Result<(u64, u64), StorageError>)
        requires
            old(self).wf(),
            old(self).size_spec() + 8 + data@.len() <= u64::MAX,
        ensures
            final(self).wf(),
            final(self).recs() == old(self).recs().push(data@),
            final(self).bytes() == old(self).bytes() + encode_record(data@),
            r == Ok::<(u64, u64), StorageError>(
                (old(self).size_spec() as u64, (8 + data@.len()) as u64),
            ),
    {
        let pos = self.data.len() as u64;
        let record_len = data.len() as u64;
        let total = LEN_WIDTH + record_len;
        let len_bytes = u64_to_le_bytes(record_len);
        let payload = slice_to_vec(data);
        append_bytes(&mut self.data, &len_bytes);
        append_bytes(&mut self.data, &payload);
        proof {
            self.records@ = self.records@.push(data@);
            lemma_encode_records_push(old(self).recs(), data@);
            assert(self.data@ =~= old(self).bytes() + encode_record(data@));
        }
        Ok((pos, total))
    }

    /// Reads the record whose length prefix starts at `pos`. Fails with
    /// `ReadBeyondEnd` past the valid region and with `CorruptedRecord`
    /// where the framing at `pos` is inconsistent.
    pub fn read(&self, pos: u64) -> (r: Result<(Vec<u8>, u64), StorageError>)
        ensures
            ({
                let bytes = self.bytes();
                let size = bytes.len() as int;
                &&& (pos >= size <==> r == Err::<(Vec<u8>, u64), StorageError>(
                        StorageError::ReadBeyondEnd { position: pos, size: size as u64 },
                    ))
                &&& (pos < size && pos + 8 > size ==> (
                        r matches Err(StorageError::CorruptedRecord { position, .. })
                            && position == pos
                    ))
                &&& (pos + 8 <= size ==> ({
                        let l = spec_u64_from_le_bytes(bytes.subrange(pos as int, pos + 8)) as int;
                        &&& (pos + 8 + l > size ==> (
                                r matches Err(StorageError::CorruptedRecord { position, .. })
                                    && position == pos
                            ))
                        &&& (pos + 8 + l <= size ==> (
                                r matches Ok(p)
                                    && p.0@ == bytes.subrange(pos + 8, pos + 8 + l)
                                    && p.1 == 8 + l
                            ))
                    }))
            }),
    {
        let size = self.data.len() as u64;
        if pos >= size {
            return Err(StorageError::ReadBeyondEnd { position: pos, size });
        }
        if size - pos < 8 {
            return Err(StorageError::CorruptedRecord {
                position: pos,
                reason: not_enough_for_prefix_reason(),
            });
        }
        let p = pos as usize;
        let record_len = u64_from_le_bytes(&self.data.as_slice()[p..p + 8]);
        if record_len > size - pos - 8 {
            return Err(StorageError::CorruptedRecord {
                position: pos,
                reason: extends_beyond_reason(),
            });
        }
        let l = record_len as usize;
        let payload = slice_to_vec(&self.data.as_slice()[p + 8..p + 8 + l]);
        Ok((payload, 8 + record_len))
    }

    /// The store's logical size: the byte count of the valid region.
    pub fn size(&self) -> (r: u64)
        ensures
            r == self.size_spec(),
    {
        self.data.len() as u64
    }

    /// Capacity policy for growing the backing mapping: at least double it,
    /// and leave a spare MiB beyond what is needed.
    pub fn grow(current_capacity: u64, size: u64, needed: u64) -> (r: u64)
        requires
            current_capacity <= u64::MAX / 2,
            size + needed + 1024 * 1024 <= u64::MAX,
        ensures
            r == if 2 * current_capacity >= size + needed + 1024 * 1024 {
                (2 * current_capacity) as u64
            } else {
                (size + needed + 1024 * 1024) as u64
            },
    {
        let doubled = current_capacity * 2;
        let target = size + needed + 1024 * 1024;
        if doubled >= target {
            doubled
        } else {
            target
        }
    }

    /// Initial capacity of the backing mapping: the valid size, but at
    /// least one MiB.
    pub fn initial_capacity(valid_size: u64) -> (r: u64)
        ensures
            r == if valid_size >= 1024 * 1024 { valid_size } else { (1024 * 1024) as u64 },
    {
        if valid_size >= 1024 * 1024 {
            valid_size
        } else {
            1024 * 1024
        }
    }

    /// The raw bytes of the valid region, for the embedding application to
    /// mirror onto the backing file.
    pub fn file_bytes(&self) -> (r: &Vec<u8>)
        ensures
            r@ == self.bytes(),
    {
        &self.data
    }
}

/// Store size accounting law: the size of a well-formed store is the sum of
/// `8 + len` over its records.
pub proof fn lemma_store_size_accounting(s: Store)
    requires
        s.wf(),
    ensures
        s.size_spec() == encoded_size(s.recs()),
{
    lemma_encoded_size(s.recs());
}

/// Runs the recovery scan over raw file contents, returning the length of
/// the valid region.
fn scan_valid_region(v: &Vec<u8>) -> (r: usize)
    ensures
        r == scan_end(v@, 0),
{
    let n = v.len();
    let mut pos: usize = 0;
    loop
        invariant_except_break
            pos <= n,
            n == v@.len(),
            scan_end(v@, 0) == scan_end(v@, pos as int),
        ensures
            pos == scan_end(v@, 0),
        decreases n - pos,
    {
        if n - pos < 8 {
            assert(scan_end(v@, pos as int) == pos);
            break;
        }
        let record_len = u64_from_le_bytes(&v.as_slice()[pos..pos + 8]);
        if record_len > MAX_RECORD_LEN {
            assert(scan_end(v@, pos as int) == pos);
            break;
        }
        if record_len > ((n - pos - 8) as u64) {
            assert(scan_end(v@, pos as int) == pos);
            break;
        }
        let next = pos + 8 + (record_len as usize);
        proof {
            let l = spec_u64_from_le_bytes(v@.subrange(pos as int, pos + 8)) as int;
            assert(scan_end(v@, pos as int) == scan_end(v@, pos + 8 + l));
        }
        pos = next;
    }
    pos
}

/// Appends the contents of `b` to `a`.
fn append_bytes(a: &mut Vec<u8>, b: &Vec<u8>)
    ensures
        final(a)@ == old(a)@ + b@,
{
    let mut i: usize = 0;
    while i < b.len()
        invariant
            i <= b@.len(),
            a@ == old(a)@ + b@.take(i as int),
        decreases b@.len() - i,
    {
        a.push(b[i]);
        proof {
            assert(old(a)@ + b@.take(i as int) + seq![b@[i as int]]
                =~= old(a)@ + b@.take(i + 1));
        }
        i = i + 1;
    }
    proof {
        assert(b@.take(b@.len() as int) =~= b@);
    }
}

/// Reason text for a length prefix cut short by the end of the store.
fn not_enough_for_prefix_reason() -> String {
    "Not enough data to read length prefix".to_owned()
}

/// Reason text for a record that runs past the end of the store.
fn extends_beyond_reason() -> String {
    "Record extends beyond store size".to_owned()
}

} // verus!
