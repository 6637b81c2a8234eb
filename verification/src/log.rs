//! The log: an ordered collection of segments behind one offset space.
//!
//! The log loads the segments found in its directory (sorted by base
//! offset), appends to the active (last) segment, rotates to a fresh
//! segment when the active one is full, dispatches reads to the segment
//! whose range contains the requested offset, and truncates by dropping
//! whole segments at or above a cutoff.
//!
//! Directory handling itself is the embedding application's: it lists the
//! files, feeds their contents in as [`SegmentImage`]s, and deletes the
//! files of truncated segments.

use vstd::prelude::*;
use crate::errors::{SegmentError, LogError};
use crate::store::{encode_records, record_start, parse_records, MAX_RECORD_LEN};
use crate::index::{parse_entries, encode_entries};
use crate::segment::{Segment, max_entry_offset, has_max_offset_entry, lemma_segment_reopen};

verus! {

/// Configuration of a log: the two capacity caps of its segments and the
/// directory its files live in.
#[derive(Debug, Clone)]
pub struct LogConfig {
    /// Byte cap of a segment's store; reaching it makes the segment full.
    pub max_store_bytes: u64,
    /// Entry cap of a segment's index; reaching it makes the segment full.
    pub max_index_entries: u64,
    /// Directory where the segment files are kept.
    pub log_dir: String,
}

impl Default for LogConfig {
    /// The default configuration: 1 MiB stores, 1024 index entries, a
    /// `data` directory.
    fn default() -> (c: LogConfig)
        ensures
            c.max_store_bytes == 1024 * 1024,
            c.max_index_entries == 1024,
            c.log_dir@ == "data"@,
    {
        LogConfig {
            max_store_bytes: 1024 * 1024,
            max_index_entries: 1024,
            log_dir: "data".to_owned(),
        }
    }
}

/// The persisted form of one segment: its base offset and the raw contents
/// of its store and index files, as read from disk by the embedding
/// application.
pub struct SegmentImage {
    pub base_offset: u64,
    pub store_bytes: Vec<u8>,
    pub index_bytes: Vec<u8>,
}

/// Inserts an image into a base-sorted sequence, after any image with the
/// same or a smaller base offset.
pub open spec fn insert_by_base(s: Seq<SegmentImage>, img: SegmentImage) -> Seq<SegmentImage>
    decreases s.len(),
{
    if s.len() == 0 {
        seq![img]
    } else if s[0].base_offset <= img.base_offset {
        seq![s[0]] + insert_by_base(s.drop_first(), img)
    } else {
        seq![img] + s
    }
}

/// Sorts segment images by base offset, ascending.
pub open spec fn sort_by_base(s: Seq<SegmentImage>) -> Seq<SegmentImage>
    decreases s.len(),
{
    if s.len() == 0 {
        Seq::empty()
    } else {
        insert_by_base(sort_by_base(s.drop_first()), s[0])
    }
}

/// Whether a sequence of images is sorted by base offset.
pub open spec fn images_sorted(s: Seq<SegmentImage>) -> bool {
    forall|i: int, j: int| 0 <= i < j < s.len()
        ==> (#[trigger] s[i]).base_offset <= (#[trigger] s[j]).base_offset
}

proof fn lemma_insert_by_base_len(s: Seq<SegmentImage>, img: SegmentImage)
    ensures
        insert_by_base(s, img).len() == s.len() + 1,
    decreases s.len(),
{
    if s.len() > 0 && s[0].base_offset <= img.base_offset {
        lemma_insert_by_base_len(s.drop_first(), img);
    }
}

proof fn lemma_insert_by_base_sorted(s: Seq<SegmentImage>, img: SegmentImage)
    requires
        images_sorted(s),
    ensures
        images_sorted(insert_by_base(s, img)),
        insert_by_base(s, img).len() == s.len() + 1,
        forall|j: int| 0 <= j < insert_by_base(s, img).len()
            ==> ((#[trigger] insert_by_base(s, img)[j]).base_offset <= img.base_offset
                ==> insert_by_base(s, img)[j].base_offset == img.base_offset
                    || (exists|i: int| 0 <= i < s.len()
                        && (#[trigger] s[i]).base_offset == insert_by_base(s, img)[j].base_offset)),
    decreases s.len(),
{
    lemma_insert_by_base_len(s, img);
    let out = insert_by_base(s, img);
    if s.len() == 0 {
    } else if s[0].base_offset <= img.base_offset {
        let s2 = s.drop_first();
        assert(images_sorted(s2));
        lemma_insert_by_base_sorted(s2, img);
        let rest = insert_by_base(s2, img);
        assert forall|i: int, j: int| 0 <= i < j < out.len()
            implies (#[trigger] out[i]).base_offset <= (#[trigger] out[j]).base_offset by {
            if i == 0 {
                if j >= 1 {
                    assert(out[j] == rest[j - 1]);
                    if rest[j - 1].base_offset <= img.base_offset {
                        // then it is the new image itself or one of s2's,
                        // all of which s[0] is below
                    } else {
                        assert(out[0].base_offset <= img.base_offset);
                    }
                }
            } else {
                assert(out[i] == rest[i - 1]);
                assert(out[j] == rest[j - 1]);
            }
        }
    } else {
        assert forall|i: int, j: int| 0 <= i < j < out.len()
            implies (#[trigger] out[i]).base_offset <= (#[trigger] out[j]).base_offset by {
            if i >= 1 {
                assert(out[i] == s[i - 1]);
                assert(out[j] == s[j - 1]);
            } else {
                assert(out[j] == s[j - 1]);
            }
        }
    }
}

/// The sorted sequence is sorted.
pub proof fn lemma_sort_by_base_sorted(s: Seq<SegmentImage>)
    ensures
        images_sorted(sort_by_base(s)),
        sort_by_base(s).len() == s.len(),
    decreases s.len(),
{
    if s.len() > 0 {
        lemma_sort_by_base_sorted(s.drop_first());
        lemma_insert_by_base_sorted(sort_by_base(s.drop_first()), s[0]);
    }
}

/// Sorting a strictly ascending sequence leaves it unchanged.
pub proof fn lemma_sort_of_sorted(s: Seq<SegmentImage>)
    requires
        forall|i: int, j: int| 0 <= i < j < s.len()
            ==> (#[trigger] s[i]).base_offset < (#[trigger] s[j]).base_offset,
    ensures
        sort_by_base(s) == s,
    decreases s.len(),
{
    if s.len() > 0 {
        let s2 = s.drop_first();
        assert(forall|i: int, j: int| 0 <= i < j < s2.len()
            ==> (#[trigger] s2[i]).base_offset < (#[trigger] s2[j]).base_offset);
        lemma_sort_of_sorted(s2);
        // inserting s[0], strictly below everything in s2, puts it in front
        if s2.len() == 0 {
            assert(insert_by_base(s2, s[0]) =~= s);
        } else {
            assert(s2[0] == s[1]);
            assert(s[0].base_offset < s2[0].base_offset);
            assert(insert_by_base(s2, s[0]) == seq![s[0]] + s2);
            assert(seq![s[0]] + s2 =~= s);
        }
    }
}

/// Inserting at the first position whose element is above the new image
/// matches the specification of insertion.
proof fn lemma_insert_at(s: Seq<SegmentImage>, img: SegmentImage, j: int)
    requires
        0 <= j <= s.len(),
        forall|k: int| 0 <= k < j ==> (#[trigger] s[k]).base_offset <= img.base_offset,
        j < s.len() ==> s[j].base_offset > img.base_offset,
    ensures
        insert_by_base(s, img) == s.take(j) + seq![img] + s.skip(j),
    decreases j,
{
    if j == 0 {
        if s.len() == 0 {
            assert(insert_by_base(s, img) =~= s.take(0) + seq![img] + s.skip(0));
        } else {
            assert(insert_by_base(s, img) == seq![img] + s);
            assert(seq![img] + s =~= s.take(0) + seq![img] + s.skip(0));
        }
    } else {
        let s2 = s.drop_first();
        assert(forall|k: int| 0 <= k < j - 1 ==> (#[trigger] s2[k]).base_offset
            <= img.base_offset);
        lemma_insert_at(s2, img, j - 1);
        assert(insert_by_base(s, img) == seq![s[0]] + insert_by_base(s2, img));
        assert(seq![s[0]] + (s2.take(j - 1) + seq![img] + s2.skip(j - 1))
            =~= s.take(j) + seq![img] + s.skip(j));
    }
}

/// Inserts `img` into `out`, which is sorted by base offset, keeping it
/// sorted and placing the new image after any equal base offsets.
fn insert_image(out: &mut Vec<SegmentImage>, img: SegmentImage)
    ensures
        final(out)@ == insert_by_base(old(out)@, img),
{
    let mut j: usize = 0;
    while j < out.len() && out[j].base_offset <= img.base_offset
        invariant
            j <= out@.len(),
            out@ == old(out)@,
            forall|k: int| 0 <= k < j ==> (#[trigger] out@[k]).base_offset <= img.base_offset,
        decreases out@.len() - j,
    {
        j = j + 1;
    }
    proof {
        lemma_insert_at(out@, img, j as int);
    }
    out.insert(j, img);
    proof {
        assert(final(out)@ =~= old(out)@.take(j as int) + seq![img] + old(out)@.skip(j as int));
    }
}

/// Sorts segment images by base offset.
fn sort_images(images: Vec<SegmentImage>) -> (r: Vec<SegmentImage>)
    ensures
        r@ == sort_by_base(images@),
{
    let ghost s = images@;
    let mut work = images;
    let mut out: Vec<SegmentImage> = Vec::new();
    proof {
        assert(s.take(s.len() as int) =~= s);
        assert(s.skip(s.len() as int) =~= Seq::<SegmentImage>::empty());
    }
    loop
        invariant_except_break
            work@.len() <= s.len(),
            work@ == s.take(work@.len() as int),
            out@ == sort_by_base(s.skip(work@.len() as int)),
        ensures
            out@ == sort_by_base(s),
        decreases work@.len(),
    {
        let m = work.len();
        if m == 0 {
            proof {
                assert(s.skip(0) =~= s);
            }
            break;
        }
        let img = match work.pop() {
            Some(i) => i,
            None => {
                proof {
                    assert(false);
                }
                break;
            },
        };
        proof {
            assert(work@ =~= s.take(m - 1));
            assert(img == s[m - 1]);
            assert(s.skip(m - 1)[0] == s[m - 1]);
            assert(s.skip(m - 1).drop_first() =~= s.skip(m as int));
        }
        insert_image(&mut out, img);
    }
    out
}


/// The records of a sequence of segments, concatenated in order.
pub open spec fn segs_records(ss: Seq<Segment>) -> Seq<Seq<u8>>
    decreases ss.len(),
{
    if ss.len() == 0 {
        Seq::empty()
    } else {
        ss[0].recs() + segs_records(ss.drop_first())
    }
}

/// The total store size of a sequence of segments.
pub open spec fn segs_total_size(ss: Seq<Segment>) -> int
    decreases ss.len(),
{
    if ss.len() == 0 {
        0
    } else {
        ss[0].store_size_spec() + segs_total_size(ss.drop_first())
    }
}

/// A contiguous chain of coherent segments: each is internally coherent
/// and each one's base offset is its predecessor's next offset.
pub open spec fn segs_chain(ss: Seq<Segment>) -> bool {
    &&& forall|k: int| 0 <= k < ss.len() ==> (#[trigger] ss[k]).wf()
    &&& forall|k: int| 0 < k < ss.len() ==> (#[trigger] ss[k]).base_spec() == ss[k - 1].next_spec()
}

/// Whether the image at hand matches the segment that opening it yields.
pub open spec fn seg_matches_image(sg: Segment, img: SegmentImage, cfg: LogConfig) -> bool {
    &&& sg.recs() == parse_records(img.store_bytes@, 0)
    &&& sg.entries() == parse_entries(img.index_bytes@)
    &&& sg.base_spec() == img.base_offset
    &&& sg.max_store_bytes_spec() == cfg.max_store_bytes
    &&& sg.max_index_entries_spec() == cfg.max_index_entries
    &&& sg.next_spec() == if parse_entries(img.index_bytes@).len() == 0 {
            img.base_offset as int
        } else {
            max_entry_offset(parse_entries(img.index_bytes@)) + 1
        }
}

/// Appending a segment appends its records.
pub proof fn lemma_segs_records_push(ss: Seq<Segment>, sg: Segment)
    ensures
        segs_records(ss.push(sg)) == segs_records(ss) + sg.recs(),
    decreases ss.len(),
{
    if ss.len() == 0 {
        assert(ss.push(sg).drop_first() =~= Seq::<Segment>::empty());
        assert(ss.push(sg)[0] == sg);
        assert(segs_records(ss.push(sg))
            == sg.recs() + segs_records(Seq::<Segment>::empty()));
        assert(segs_records(ss.push(sg)) =~= segs_records(ss) + sg.recs());
    } else {
        assert(ss.push(sg).drop_first() =~= ss.drop_first().push(sg));
        lemma_segs_records_push(ss.drop_first(), sg);
        assert(segs_records(ss.push(sg)) =~= segs_records(ss) + sg.recs());
    }
}

/// Splitting the records of a chain at its last segment.
pub proof fn lemma_segs_records_snoc(ss: Seq<Segment>)
    requires
        ss.len() >= 1,
    ensures
        segs_records(ss) == segs_records(ss.drop_last()) + ss.last().recs(),
{
    lemma_segs_records_push(ss.drop_last(), ss.last());
    assert(ss.drop_last().push(ss.last()) =~= ss);
}

/// In a chain, the last next offset is the first base offset plus the
/// total record count: offsets are dense across the whole chain.
pub proof fn lemma_chain_next(ss: Seq<Segment>)
    requires
        ss.len() >= 1,
        segs_chain(ss),
    ensures
        ss.last().next_spec() == ss[0].base_spec() + segs_records(ss).len(),
        forall|k: int| 0 <= k < ss.len() ==> (#[trigger] ss[k]).base_spec() >= ss[0].base_spec()
            && ss[k].next_spec() <= ss.last().next_spec(),
    decreases ss.len(),
{
    if ss.len() == 1 {
        assert(segs_records(ss) == ss[0].recs() + segs_records(ss.drop_first()));
        assert(segs_records(ss.drop_first()) =~= Seq::<Seq<u8>>::empty());
        assert(segs_records(ss).len() == ss[0].recs().len());
    } else {
        let ss2 = ss.drop_first();
        assert(segs_chain(ss2)) by {
            assert(forall|k: int| 0 <= k < ss2.len() ==> ss2[k] == ss[k + 1]);
        }
        lemma_chain_next(ss2);
        assert(ss2[0] == ss[1]);
        assert(ss.last() == ss2.last());
        assert(segs_records(ss).len() == ss[0].recs().len() + segs_records(ss2).len());
        assert forall|k: int| 0 <= k < ss.len()
            implies (#[trigger] ss[k]).base_spec() >= ss[0].base_spec()
                && ss[k].next_spec() <= ss.last().next_spec() by {
            if k > 0 {
                assert(ss[k] == ss2[k - 1]);
                assert(ss2[k - 1].base_spec() >= ss2[0].base_spec());
            }
        }
    }
}

/// Reading through a chain: an offset contained in segment `k` selects,
/// within the concatenated records, exactly that segment's record.
pub proof fn lemma_chain_dispatch(ss: Seq<Segment>, k: int, o: u64)
    requires
        segs_chain(ss),
        0 <= k < ss.len(),
        ss[k].base_spec() <= o < ss[k].next_spec(),
    ensures
        ss[0].base_spec() <= o < ss.last().next_spec(),
        0 <= o - ss[0].base_spec() < segs_records(ss).len(),
        segs_records(ss)[o - ss[0].base_spec()] == ss[k].recs()[o - ss[k].base_spec()],
    decreases k,
{
    lemma_chain_next(ss);
    let base = ss[0].base_spec();
    if k == 0 {
        assert(segs_records(ss) == ss[0].recs() + segs_records(ss.drop_first()));
        assert(segs_records(ss)[o - base] == ss[0].recs()[o - base]);
    } else {
        let ss2 = ss.drop_first();
        assert(segs_chain(ss2)) by {
            assert(forall|j: int| 0 <= j < ss2.len() ==> ss2[j] == ss[j + 1]);
        }
        assert(ss2[k - 1] == ss[k]);
        lemma_chain_dispatch(ss2, k - 1, o);
        assert(segs_records(ss) == ss[0].recs() + segs_records(ss2));
        assert(ss2[0].base_spec() == ss[0].base_spec() + ss[0].recs().len()) by {
            assert(ss[1].base_spec() == ss[0].next_spec());
        }
        assert(segs_records(ss)[o - base] == segs_records(ss2)[o - ss2[0].base_spec()]);
    }
}

/// Coverage of a chain: every offset between the first base and the last
/// next offset is contained in some segment.
pub proof fn lemma_chain_coverage(ss: Seq<Segment>, o: u64)
    requires
        segs_chain(ss),
        ss.len() >= 1,
        ss[0].base_spec() <= o < ss.last().next_spec(),
    ensures
        exists|k: int| 0 <= k < ss.len()
            && (#[trigger] ss[k]).base_spec() <= o < ss[k].next_spec(),
    decreases ss.len(),
{
    if o < ss[0].next_spec() {
        assert(ss[0].base_spec() <= o < ss[0].next_spec());
    } else {
        let ss2 = ss.drop_first();
        assert(ss.len() >= 2);
        assert(segs_chain(ss2)) by {
            assert(forall|j: int| 0 <= j < ss2.len() ==> ss2[j] == ss[j + 1]);
        }
        assert(ss2[0].base_spec() == ss[0].next_spec());
        assert(ss.last() == ss2.last());
        lemma_chain_coverage(ss2, o);
        let k2 = choose|k2: int| 0 <= k2 < ss2.len()
            && (#[trigger] ss2[k2]).base_spec() <= o < ss2[k2].next_spec();
        assert(ss[k2 + 1] == ss2[k2]);
        assert(0 <= k2 + 1 < ss.len()
            && (#[trigger] ss[k2 + 1]).base_spec() <= o < ss[k2 + 1].next_spec());
    }
}

/// The log: the segments in base-offset order, the index of the active
/// (last) segment, and the offset the next append will be assigned.
pub struct Log {
    segments: Vec<Segment>,
    active_segment_index: usize,
    next_offset: u64,
    config: LogConfig,
}

impl Log {
    /// The log's segments, in base-offset order.
    pub closed spec fn segs(self) -> Seq<Segment> {
        self.segments@
    }

    /// The index of the active segment.
    pub closed spec fn active_spec(self) -> int {
        self.active_segment_index as int
    }

    /// The offset the next append will be assigned.
    pub closed spec fn next_spec(self) -> u64 {
        self.next_offset
    }

    /// The log's configuration.
    pub closed spec fn config_spec(self) -> LogConfig {
        self.config
    }

    /// The lowest offset the log can hold: the first segment's base.
    pub open spec fn base_spec(self) -> u64 {
        self.segs()[0].base_spec()
    }

    /// All records of the log, in offset order (coherent logs).
    pub open spec fn records(self) -> Seq<Seq<u8>> {
        segs_records(self.segs())
    }

    /// Structural soundness, held by every log the crate hands out: at
    /// least one segment, the active one last, every segment structurally
    /// sound and carrying the configured caps.
    pub open spec fn inv(self) -> bool {
        &&& self.segs().len() >= 1
        &&& self.active_spec() == self.segs().len() - 1
        &&& forall|k: int| 0 <= k < self.segs().len() ==> (#[trigger] self.segs()[k]).inv()
        &&& forall|k: int| 0 <= k < self.segs().len()
                ==> (#[trigger] self.segs()[k]).max_store_bytes_spec()
                    == self.config_spec().max_store_bytes
                && self.segs()[k].max_index_entries_spec()
                    == self.config_spec().max_index_entries
    }

    /// Full coherence: the segments form a contiguous chain and the log's
    /// next offset is the active segment's. Holds of logs built by
    /// appending, rotating and reopening cleanly persisted files.
    pub open spec fn wf(self) -> bool {
        &&& self.inv()
        &&& segs_chain(self.segs())
        &&& self.next_spec() == self.segs().last().next_spec()
    }

    /// Opens a log over the segment files found in the log directory,
    /// sorted by base offset; with no files present, a single fresh
    /// segment at base offset 0.
    #[verifier::loop_isolation(false)]
    pub fn new(config: LogConfig, images: Vec<SegmentImage>) -> (r: Result<Log, LogError>)
        ensures
            ({
                let sorted = sort_by_base(images@);
                &&& (r is Ok <==> forall|k: int| 0 <= k < sorted.len()
                        ==> !has_max_offset_entry(parse_entries((#[trigger] sorted[k]).index_bytes@)))
                &&& (r matches Err(e) ==> e matches LogError::Segment(SegmentError::Index(_)))
                &&& (r matches Ok(log) ==> {
                        &&& log.inv()
                        &&& log.config_spec() == config
                        &&& (images@.len() == 0 ==> {
                                &&& log.segs().len() == 1
                                &&& log.segs()[0].recs() == Seq::<Seq<u8>>::empty()
                                &&& log.segs()[0].entries() == Seq::<(u64, u64)>::empty()
                                &&& log.segs()[0].base_spec() == 0
                                &&& log.segs()[0].next_spec() == 0
                                &&& log.next_spec() == 0
                                &&& log.wf()
                                &&& log.packed()
                            })
                        &&& (images@.len() > 0 ==> {
                                &&& log.segs().len() == sorted.len()
                                &&& forall|k: int| 0 <= k < sorted.len()
                                        ==> seg_matches_image(
                                            #[trigger] log.segs()[k], sorted[k], config)
                                &&& log.next_spec() == log.segs().last().next_spec()
                            })
                    })
            }),
    {
        let sorted = sort_images(images);
        let ghost sseq = sorted@;
        let mut segments: Vec<Segment> = Vec::new();
        if sorted.len() == 0 {
            let seg = match Segment::new(
                Vec::new(),
                Vec::new(),
                0,
                config.max_store_bytes,
                config.max_index_entries,
            ) {
                Ok(s) => s,
                Err(_) => {
                    proof {
                        assert(parse_entries(Seq::<u8>::empty()).len() == 0);
                    }
                    vstd::pervasive::unreached()
                },
            };
            proof {
                assert(parse_records(Seq::<u8>::empty(), 0) =~= Seq::<Seq<u8>>::empty());
                assert(parse_entries(Seq::<u8>::empty()) =~= Seq::<(u64, u64)>::empty());
            }
            segments.push(seg);
            let next_offset = seg_next(&segments);
            proof {
                assert(segments@.last() == seg);
            }
            Ok(Log { segments, active_segment_index: 0, next_offset, config })
        } else {
            let mut work = sorted;
            let mut k: usize = 0;
            while work.len() > 0
                invariant
                    k + work@.len() == sseq.len(),
                    work@ == sseq.skip(k as int),
                    segments@.len() == k,
                    forall|j: int| 0 <= j < k
                        ==> seg_matches_image(#[trigger] segments@[j], sseq[j], config)
                        && segments@[j].inv(),
                    forall|j: int| 0 <= j < k
                        ==> !has_max_offset_entry(parse_entries((#[trigger] sseq[j]).index_bytes@)),
                decreases work@.len(),
            {
                let img = work.remove(0);
                proof {
                    assert(img == sseq[k as int]);
                    assert(work@ =~= sseq.skip(k + 1));
                }
                let seg = match Segment::new(
                    img.store_bytes,
                    img.index_bytes,
                    img.base_offset,
                    config.max_store_bytes,
                    config.max_index_entries,
                ) {
                    Ok(s) => s,
                    Err(e) => {
                        proof {
                            assert(has_max_offset_entry(parse_entries(sseq[k as int].index_bytes@)));
                        }
                        return Err(LogError::Segment(e));
                    },
                };
                segments.push(seg);
                k = k + 1;
            }
            let active = segments.len() - 1;
            let next_offset = seg_next(&segments);
            Ok(Log { segments, active_segment_index: active, next_offset, config })
        }
    }
}

/// The next offset of the last segment of a non-empty segment vector.
fn seg_next(segments: &Vec<Segment>) -> (r: u64)
    requires
        segments@.len() >= 1,
    ensures
        r == segments@.last().next_spec(),
{
    segments[segments.len() - 1].next_offset()
}


/// The segments whose base offset lies below the cutoff, in order.
pub open spec fn keep_below(ss: Seq<Segment>, offset: u64) -> Seq<Segment>
    decreases ss.len(),
{
    if ss.len() == 0 {
        Seq::empty()
    } else if ss[0].base_spec() < offset {
        seq![ss[0]] + keep_below(ss.drop_first(), offset)
    } else {
        keep_below(ss.drop_first(), offset)
    }
}

proof fn lemma_keep_below_push(ss: Seq<Segment>, sg: Segment, offset: u64)
    ensures
        keep_below(ss.push(sg), offset) == if sg.base_spec() < offset {
            keep_below(ss, offset).push(sg)
        } else {
            keep_below(ss, offset)
        },
    decreases ss.len(),
{
    if ss.len() == 0 {
        assert(ss.push(sg).drop_first() =~= Seq::<Segment>::empty());
        assert(ss.push(sg)[0] == sg);
        if sg.base_spec() < offset {
            assert(keep_below(ss.push(sg), offset)
                == seq![sg] + keep_below(Seq::<Segment>::empty(), offset));
            assert(keep_below(ss.push(sg), offset) =~= keep_below(ss, offset).push(sg));
        } else {
            assert(keep_below(ss.push(sg), offset)
                == keep_below(Seq::<Segment>::empty(), offset));
            assert(keep_below(ss.push(sg), offset) =~= keep_below(ss, offset));
        }
    } else {
        assert(ss.push(sg).drop_first() =~= ss.drop_first().push(sg));
        assert(ss.push(sg)[0] == ss[0]);
        lemma_keep_below_push(ss.drop_first(), sg, offset);
        if sg.base_spec() < offset {
            assert(keep_below(ss.push(sg), offset) =~= keep_below(ss, offset).push(sg));
        } else {
            assert(keep_below(ss.push(sg), offset) =~= keep_below(ss, offset));
        }
    }
}

/// With every base offset at or above the cutoff, nothing is kept.
pub proof fn lemma_keep_below_none(ss: Seq<Segment>, offset: u64)
    requires
        forall|k: int| 0 <= k < ss.len() ==> (#[trigger] ss[k]).base_spec() >= offset,
    ensures
        keep_below(ss, offset).len() == 0,
    decreases ss.len(),
{
    if ss.len() > 0 {
        assert(forall|k: int| 0 <= k < ss.drop_first().len()
            ==> (#[trigger] ss.drop_first()[k]).base_spec() >= offset);
        lemma_keep_below_none(ss.drop_first(), offset);
    }
}

proof fn lemma_segs_total_nonneg(ss: Seq<Segment>)
    ensures
        segs_total_size(ss) >= 0,
    decreases ss.len(),
{
    if ss.len() > 0 {
        lemma_segs_total_nonneg(ss.drop_first());
    }
}

proof fn lemma_segs_total_split(ss: Seq<Segment>, i: int)
    requires
        0 <= i <= ss.len(),
    ensures
        segs_total_size(ss.take(i)) + segs_total_size(ss.skip(i)) == segs_total_size(ss),
    decreases i,
{
    if i == 0 {
        assert(ss.take(0) =~= Seq::<Segment>::empty());
        assert(ss.skip(0) =~= ss);
    } else {
        lemma_segs_total_split(ss.drop_first(), i - 1);
        assert(ss.take(i).drop_first() =~= ss.drop_first().take(i - 1));
        assert(ss.skip(i) =~= ss.drop_first().skip(i - 1));
        assert(ss.take(i)[0] == ss[0]);
    }
}

impl Log {
    /// Every segment but the active one is full, and within each segment
    /// every record but the first was appended while the segment was not
    /// yet full. Holds of logs grown purely by appending, and is what
    /// makes the rotation law tick.
    pub open spec fn packed(self) -> bool {
        self.nonactive_full() && self.prefixes_below_caps()
    }

    /// Every segment but the active (last) one is full.
    pub open spec fn nonactive_full(self) -> bool {
        forall|k: int| 0 <= k < self.segs().len() - 1
            ==> (#[trigger] self.segs()[k]).is_full_spec()
    }

    /// Within each segment, every record but the first found both caps
    /// still unmet when it was appended.
    pub open spec fn prefixes_below_caps(self) -> bool {
        forall|k: int, j: int| 0 <= k < self.segs().len()
            && 1 <= j < self.segs()[k].recs().len()
            ==> #[trigger] record_start(self.segs()[k].recs(), j)
                    < self.config_spec().max_store_bytes
                && j < self.config_spec().max_index_entries
    }

    /// Creates a fresh segment at the current next offset and makes it the
    /// active one.
    pub fn rotate_segment(&mut self) -> (r: Result<(), LogError>)
        requires
            old(self).inv(),
        ensures
            r == Ok::<(), LogError>(()),
            final(self).inv(),
            final(self).config_spec() == old(self).config_spec(),
            final(self).next_spec() == old(self).next_spec(),
            final(self).segs().len() == old(self).segs().len() + 1,
            forall|k: int| 0 <= k < old(self).segs().len()
                ==> #[trigger] final(self).segs()[k] == old(self).segs()[k],
            ({
                let fresh = final(self).segs().last();
                &&& fresh.recs() == Seq::<Seq<u8>>::empty()
                &&& fresh.entries() == Seq::<(u64, u64)>::empty()
                &&& fresh.base_spec() == old(self).next_spec()
                &&& fresh.next_spec() == old(self).next_spec()
                &&& fresh.wf()
            }),
            (old(self).wf() ==> final(self).wf()),
            (old(self).wf() && old(self).packed() && old(self).segs().last().is_full_spec()
                ==> final(self).packed()),
    {
        let seg = match Segment::new(
            Vec::new(),
            Vec::new(),
            self.next_offset,
            self.config.max_store_bytes,
            self.config.max_index_entries,
        ) {
            Ok(s) => s,
            Err(_) => {
                proof {
                    assert(parse_entries(Seq::<u8>::empty()).len() == 0);
                }
                vstd::pervasive::unreached()
            },
        };
        proof {
            assert(parse_records(Seq::<u8>::empty(), 0) =~= Seq::<Seq<u8>>::empty());
            assert(parse_entries(Seq::<u8>::empty()) =~= Seq::<(u64, u64)>::empty());
        }
        self.segments.push(seg);
        self.active_segment_index = self.segments.len() - 1;
        proof {
            if old(self).wf() {
                assert(final(self).segs().last() == seg);
                assert(segs_chain(final(self).segs())) by {
                    assert(forall|k: int| 0 <= k < old(self).segs().len()
                        ==> #[trigger] final(self).segs()[k] == old(self).segs()[k]);
                }
            }
        }
        Ok(())
    }

    /// Appends a record to the log: rotates first if the active segment is
    /// full, appends to the active segment, and returns the assigned
    /// offset.
    #[verifier::rlimit(50)]
    pub fn append(&mut self, data: &[u8]) -> (r: Result<u64, LogError>)
        requires
            old(self).inv(),
            old(self).next_spec() < u64::MAX,
            8 + data@.len() <= u64::MAX,
            !old(self).segs().last().is_full_spec() ==> ({
                &&& old(self).segs().last().next_spec() < u64::MAX
                &&& old(self).segs().last().store_size_spec() + 8 + data@.len() <= u64::MAX
                &&& 16 * (old(self).segs().last().entries().len() + 1) <= u64::MAX
            }),
        ensures
            final(self).inv(),
            final(self).config_spec() == old(self).config_spec(),
            ({
                let was_full = old(self).segs().last().is_full_spec();
                let caps_zero = old(self).config_spec().max_store_bytes == 0
                    || old(self).config_spec().max_index_entries == 0;
                &&& (r is Err <==> (was_full && caps_zero))
                &&& (was_full ==> final(self).segs().len() == old(self).segs().len() + 1
                        && (forall|k: int| 0 <= k < old(self).segs().len()
                            ==> #[trigger] final(self).segs()[k] == old(self).segs()[k]))
                &&& (!was_full ==> final(self).segs().len() == old(self).segs().len()
                        && (forall|k: int| 0 <= k < old(self).segs().len() - 1
                            ==> #[trigger] final(self).segs()[k] == old(self).segs()[k]))
                &&& (r matches Ok(offset) ==> ({
                        let appended = final(self).segs().last();
                        let prior_recs = if was_full {
                            Seq::<Seq<u8>>::empty()
                        } else {
                            old(self).segs().last().recs()
                        };
                        let prior_next = if was_full {
                            old(self).next_spec()
                        } else {
                            old(self).segs().last().next_spec()
                        };
                        &&& offset == prior_next
                        &&& appended.recs() == prior_recs.push(data@)
                        &&& appended.next_spec() == offset + 1
                        &&& final(self).next_spec() == offset + 1
                    }))
                &&& (r is Err ==> r == Err::<u64, LogError>(LogError::Segment(
                        SegmentError::SegmentFull {
                            base_offset: old(self).next_spec(),
                            max_size: old(self).config_spec().max_store_bytes,
                            current_size: 0,
                        },
                    )) && final(self).next_spec() == old(self).next_spec()
                        && final(self).records() == old(self).records())
            }),
            old(self).wf() ==> ({
                &&& final(self).wf()
                &&& (r matches Ok(offset) ==> offset == old(self).next_spec()
                        && final(self).records() == old(self).records().push(data@)
                        && final(self).next_spec() == old(self).next_spec() + 1
                        && final(self).base_spec() == old(self).base_spec())
                &&& (old(self).packed() ==> final(self).packed())
            }),
    {
        let n = self.segments.len();
        let was_full = self.segments[n - 1].is_full();
        if was_full {
            match self.rotate_segment() {
                Ok(()) => {},
                Err(_) => {
                    vstd::pervasive::unreached()
                },
            }
        }
        let ghost mid = *self;
        let mut active = match self.segments.pop() {
            Some(s) => s,
            None => {
                vstd::pervasive::unreached()
            },
        };
        let ghost active0 = active;
        let res = active.append(data);
        proof {
            assert(active0 == mid.segs().last());
        }
        match res {
            Ok(offset) => {
                self.segments.push(active);
                self.next_offset = offset + 1;
                proof {
                    assert(final(self).segs() =~= mid.segs().drop_last().push(active));
                    assert(forall|k: int| 0 <= k < mid.segs().len() - 1
                        ==> #[trigger] final(self).segs()[k] == mid.segs()[k]);
                    if old(self).wf() {
                        lemma_append_coherent(*old(self), mid, *final(self), active, data@, was_full);
                        assert(final(self).wf());
                        assert(final(self).records() == old(self).records().push(data@));
                        assert(final(self).base_spec() == old(self).base_spec());
                        if old(self).packed() {
                            assert(final(self).packed());
                        }
                    }
                }
                Ok(offset)
            },
            Err(e) => {
                self.segments.push(active);
                proof {
                    assert(final(self).segs() =~= mid.segs());
                    if was_full {
                        lemma_segs_records_push(old(self).segs(), mid.segs().last());
                        assert(old(self).records() + mid.segs().last().recs()
                            =~= old(self).records());
                        assert(mid.segs() =~= old(self).segs().push(mid.segs().last()));
                    } else {
                        assert(mid.segs() == old(self).segs());
                    }
                    assert(final(self).records() == old(self).records());
                    if old(self).wf() {
                        assert(segs_chain(final(self).segs()));
                        assert(final(self).wf());
                        if old(self).packed() {
                            assert(mid.packed());
                            assert forall|k: int| 0 <= k < final(self).segs().len() - 1
                                implies (#[trigger] final(self).segs()[k]).is_full_spec() by {
                                assert(final(self).segs()[k] == mid.segs()[k]);
                            }
                            assert forall|k: int, j: int| 0 <= k < final(self).segs().len()
                                && 1 <= j < final(self).segs()[k].recs().len()
                                implies #[trigger] record_start(final(self).segs()[k].recs(), j)
                                        < final(self).config_spec().max_store_bytes
                                    && j < final(self).config_spec().max_index_entries by {
                                assert(final(self).segs()[k] == mid.segs()[k]);
                                lemma_packed_at(mid, k, j);
                            }
                            assert(final(self).nonactive_full());
                            assert(final(self).prefixes_below_caps());
                            assert(final(self).packed());
                        }
                    }
                }
                Err(LogError::Segment(e))
            },
        }
    }
}

/// Direct instantiation of the per-record part of the packed invariant.
proof fn lemma_packed_at(l: Log, k: int, j: int)
    requires
        l.packed(),
        0 <= k < l.segs().len(),
        1 <= j < l.segs()[k].recs().len(),
    ensures
        record_start(l.segs()[k].recs(), j) < l.config_spec().max_store_bytes,
        j < l.config_spec().max_index_entries,
{
    assert(record_start(l.segs()[k].recs(), j) < l.config_spec().max_store_bytes);
    assert(j < l.config_spec().max_index_entries);
}

/// The coherence bookkeeping of a successful append: the chain, the packed
/// invariant and the record view all extend by the one new record.
#[verifier::rlimit(50)]
proof fn lemma_append_coherent(
    pre: Log,
    mid: Log,
    post: Log,
    active: Segment,
    data: Seq<u8>,
    was_full: bool,
)
    requires
        pre.wf(),
        mid.inv(),
        post.inv(),
        mid.config_spec() == pre.config_spec(),
        post.config_spec() == pre.config_spec(),
        was_full == pre.segs().last().is_full_spec(),
        // how mid relates to pre (rotation or not)
        !was_full ==> mid.segs() == pre.segs(),
        was_full ==> mid.segs().len() == pre.segs().len() + 1
            && (forall|k: int| 0 <= k < pre.segs().len()
                ==> #[trigger] mid.segs()[k] == pre.segs()[k])
            && mid.segs().last().recs() == Seq::<Seq<u8>>::empty()
            && mid.segs().last().entries() == Seq::<(u64, u64)>::empty()
            && mid.segs().last().base_spec() == pre.next_spec()
            && mid.segs().last().next_spec() == pre.next_spec()
            && mid.segs().last().wf(),
        mid.next_spec() == pre.next_spec(),
        // how the appended segment relates to the one it replaced
        !mid.segs().last().is_full_spec(),
        active.recs() == mid.segs().last().recs().push(data),
        active.entries() == mid.segs().last().entries().push(
            (mid.segs().last().next_spec(), mid.segs().last().store_size_spec() as u64),
        ),
        active.next_spec() == mid.segs().last().next_spec() + 1,
        active.base_spec() == mid.segs().last().base_spec(),
        active.max_store_bytes_spec() == mid.segs().last().max_store_bytes_spec(),
        active.max_index_entries_spec() == mid.segs().last().max_index_entries_spec(),
        mid.segs().last().wf() ==> active.wf(),
        // the final state
        post.segs() == mid.segs().drop_last().push(active),
        post.next_spec() == active.next_spec(),
    ensures
        post.wf(),
        post.records() == pre.records().push(data),
        post.base_spec() == pre.base_spec(),
        pre.packed() ==> post.packed(),
{
    let pres = pre.segs();
    let mids = mid.segs();
    let posts = post.segs();
    // mid is coherent
    assert(segs_chain(mids)) by {
        if was_full {
            assert(forall|k: int| 0 <= k < pres.len() ==> #[trigger] mids[k] == pres[k]);
            assert(mids.last().base_spec() == pres.last().next_spec());
        }
    }
    assert(mids.last().wf());
    // the chain still holds after replacing the last segment
    assert(segs_chain(posts)) by {
        assert(forall|k: int| 0 <= k < mids.len() - 1 ==> #[trigger] posts[k] == mids[k]);
        assert(posts.last() == active);
        assert(active.wf());
        if posts.len() > 1 {
            assert(posts[posts.len() - 2] == mids[mids.len() - 2]);
        }
    }
    assert(post.wf());
    // records: replacing the last segment's records extends the whole view
    lemma_segs_records_snoc(mids);
    lemma_segs_records_push(mids.drop_last(), active);
    assert(posts.drop_last() =~= mids.drop_last());
    if was_full {
        lemma_segs_records_snoc(posts);
        assert(mids.drop_last() =~= pres);
        assert(mids.last().recs() =~= Seq::<Seq<u8>>::empty());
        assert(active.recs() =~= seq![data]);
        assert(post.records() =~= pre.records().push(data));
    } else {
        assert(mids =~= pres);
        assert(post.records() =~= pre.records().push(data));
    }
    // base offset unchanged
    if mids.len() == 1 {
        assert(posts[0] == active);
        assert(mids[0] == pres[0]);
    } else {
        assert(posts[0] == mids[0]);
        assert(mids[0] == pres[0]);
    }
    assert(post.base_spec() == pre.base_spec());
    // the packed invariant extends
    if pre.packed() {
        let m = pre.config_spec().max_store_bytes;
        let cnt = mids.last().recs().len() as int;
        assert forall|k: int, j: int| 0 <= k < posts.len()
            && 1 <= j < posts[k].recs().len()
            implies #[trigger] record_start(posts[k].recs(), j) < m
                && j < pre.config_spec().max_index_entries by {
            if k < posts.len() - 1 {
                assert(posts[k] == mids[k]);
                assert(mids[k] == pres[k]);
                assert(1 <= j < pre.segs()[k].recs().len());
                lemma_packed_at(pre, k, j);
                assert(record_start(posts[k].recs(), j) == record_start(pres[k].recs(), j));
            } else {
                assert(posts[k] == active);
                assert(mids.last() == mids[mids.len() - 1]);
                assert(mids.last().max_store_bytes_spec() == pre.config_spec().max_store_bytes);
                assert(mids.last().max_index_entries_spec()
                    == pre.config_spec().max_index_entries);
                assert(active.recs() == mids.last().recs().push(data));
                if j < cnt {
                    assert(active.recs().take(j) =~= mids.last().recs().take(j));
                    if was_full {
                        assert(cnt == 0);
                    } else {
                        assert(mids.last() == pres.last());
                        assert(pres.last() == pres[pres.len() - 1]);
                        assert(1 <= j < pre.segs()[pres.len() - 1].recs().len());
                        lemma_packed_at(pre, pres.len() - 1, j);
                        assert(record_start(posts[k].recs(), j)
                            == record_start(pres[pres.len() - 1].recs(), j));
                    }
                } else {
                    assert(j == cnt);
                    assert(active.recs().take(j) =~= mids.last().recs());
                    assert(record_start(active.recs(), j) == mids.last().store_size_spec());
                    assert(!mids.last().is_full_spec());
                    assert(mids.last().wf());
                    assert(mids.last().entries().len() == cnt);
                    assert(mids.last().store_size_spec() < m);
                    assert(cnt < pre.config_spec().max_index_entries);
                }
            }
        }
        assert forall|k: int| 0 <= k < posts.len() - 1
            implies (#[trigger] posts[k]).is_full_spec() by {
            assert(posts[k] == mids[k]);
            assert(mids[k] == pres[k]);
            if was_full && k == pres.len() - 1 {
                assert(pres[k] == pres.last());
            } else {
                assert(k < pres.len() - 1);
            }
        }
        assert(post.prefixes_below_caps());
        assert(post.nonactive_full());
        assert(post.packed());
    }
}


impl Log {
    /// Reads the record at `offset`, dispatching to the segment whose
    /// range contains it; offsets outside every segment fail with
    /// `OffsetNotFound`.
    pub fn read(&self, offset: u64) -> (r: Result<Vec<u8>, LogError>)
        requires
            self.inv(),
        ensures
            (forall|k: int| 0 <= k < self.segs().len()
                ==> !((#[trigger] self.segs()[k]).base_spec() <= offset
                    < self.segs()[k].next_spec()))
                ==> r == Err::<Vec<u8>, LogError>(LogError::OffsetNotFound {
                        offset,
                        base_offset: self.base_spec(),
                        next_offset: self.next_spec(),
                    }),
            self.wf() ==> ({
                &&& (self.base_spec() <= offset < self.next_spec() ==> (
                        r matches Ok(d)
                            && 0 <= offset - self.base_spec() < self.records().len()
                            && d@ == self.records()[offset - self.base_spec()]
                    ))
                &&& (!(self.base_spec() <= offset < self.next_spec())
                        ==> r == Err::<Vec<u8>, LogError>(LogError::OffsetNotFound {
                                offset,
                                base_offset: self.base_spec(),
                                next_offset: self.next_spec(),
                            }))
            }),
    {
        let n = self.segments.len();
        let mut k: usize = 0;
        while k < n
            invariant
                k <= n,
                n == self.segs().len(),
                self.inv(),
                forall|j: int| 0 <= j < k
                    ==> !((#[trigger] self.segs()[j]).base_spec() <= offset
                        < self.segs()[j].next_spec()),
            decreases n - k,
        {
            if self.segments[k].contains_offset(offset) {
                proof {
                    if self.wf() {
                        lemma_chain_dispatch(self.segs(), k as int, offset);
                    }
                }
                let res = self.segments[k].read(offset);
                match res {
                    Ok(d) => {
                        return Ok(d);
                    },
                    Err(e) => {
                        proof {
                            if self.wf() {
                                assert(self.segs()[k as int].wf());
                                assert(false);
                            }
                        }
                        return Err(LogError::Segment(e));
                    },
                }
            }
            k = k + 1;
        }
        proof {
            if self.wf() && self.base_spec() <= offset < self.next_spec() {
                lemma_chain_coverage(self.segs(), offset);
                assert(false);
            }
        }
        Err(LogError::OffsetNotFound {
            offset,
            base_offset: self.segments[0].base_offset(),
            next_offset: self.next_offset,
        })
    }

    /// Drops every segment whose base offset is at or above the cutoff
    /// (the embedding application deletes their files, see
    /// [`Self::segments_to_remove`]), creates a fresh segment at the
    /// cutoff if none survives, and resets the next offset to the cutoff.
    /// Truncation is whole-segment: a segment whose range merely contains
    /// the cutoff is retained unchanged.
    pub fn truncate(&mut self, offset: u64) -> (r: Result<(), LogError>)
        requires
            old(self).inv(),
        ensures
            r == Ok::<(), LogError>(()),
            final(self).inv(),
            final(self).next_spec() == offset,
            final(self).config_spec() == old(self).config_spec(),
            ({
                let kept = keep_below(old(self).segs(), offset);
                &&& (kept.len() > 0 ==> final(self).segs() == kept)
                &&& (kept.len() == 0 ==> {
                        &&& final(self).segs().len() == 1
                        &&& final(self).segs()[0].recs() == Seq::<Seq<u8>>::empty()
                        &&& final(self).segs()[0].entries() == Seq::<(u64, u64)>::empty()
                        &&& final(self).segs()[0].base_spec() == offset
                        &&& final(self).segs()[0].next_spec() == offset
                        &&& final(self).wf()
                    })
            }),
    {
        let ghost orig = self.segments@;
        let n0 = self.segments.len();
        proof {
            assert(orig.len() == n0);
            assert(orig.take(0) =~= Seq::<Segment>::empty());
            assert(orig.skip(0) =~= orig);
        }
        let mut kept: Vec<Segment> = Vec::new();
        let mut i: usize = 0;
        while self.segments.len() > 0
            invariant
                i <= orig.len(),
                orig.len() <= usize::MAX,
                self.config_spec() == old(self).config_spec(),
                i + self.segments@.len() == orig.len(),
                self.segments@ == orig.skip(i as int),
                kept@ == keep_below(orig.take(i as int), offset),
                forall|j: int| 0 <= j < orig.len() ==> (#[trigger] orig[j]).inv()
                    && orig[j].max_store_bytes_spec() == self.config_spec().max_store_bytes
                    && orig[j].max_index_entries_spec() == self.config_spec().max_index_entries,
                forall|j: int| 0 <= j < kept@.len() ==> (#[trigger] kept@[j]).inv()
                    && kept@[j].max_store_bytes_spec() == self.config_spec().max_store_bytes
                    && kept@[j].max_index_entries_spec() == self.config_spec().max_index_entries,
            decreases self.segments@.len(),
        {
            let sg = self.segments.remove(0);
            proof {
                assert(sg == orig[i as int]);
                assert(self.segments@ =~= orig.skip(i + 1));
                lemma_keep_below_push(orig.take(i as int), sg, offset);
                assert(orig.take(i as int).push(sg) =~= orig.take(i + 1));
            }
            if sg.base_offset() < offset {
                kept.push(sg);
            }
            i = i + 1;
        }
        proof {
            assert(orig.take(orig.len() as int) =~= orig);
        }
        if kept.len() == 0 {
            let seg = match Segment::new(
                Vec::new(),
                Vec::new(),
                offset,
                self.config.max_store_bytes,
                self.config.max_index_entries,
            ) {
                Ok(s) => s,
                Err(_) => {
                    proof {
                        assert(parse_entries(Seq::<u8>::empty()).len() == 0);
                    }
                    vstd::pervasive::unreached()
                },
            };
            proof {
                assert(parse_records(Seq::<u8>::empty(), 0) =~= Seq::<Seq<u8>>::empty());
                assert(parse_entries(Seq::<u8>::empty()) =~= Seq::<(u64, u64)>::empty());
            }
            kept.push(seg);
        }
        self.segments = kept;
        self.active_segment_index = self.segments.len() - 1;
        self.next_offset = offset;
        Ok(())
    }

    /// The base offsets of the segments that `truncate` at this cutoff
    /// would drop, so that the embedding application can delete their
    /// files first.
    pub fn segments_to_remove(&self, offset: u64) -> (r: Vec<u64>)
        requires
            self.inv(),
        ensures
            r@ == removed_bases(self.segs(), offset),
    {
        let n = self.segments.len();
        let mut out: Vec<u64> = Vec::new();
        let mut k: usize = 0;
        proof {
            assert(self.segs().take(0) =~= Seq::<Segment>::empty());
        }
        while k < n
            invariant
                k <= n,
                n == self.segs().len(),
                out@ == removed_bases(self.segs().take(k as int), offset),
            decreases n - k,
        {
            let sg_base = self.segments[k].base_offset();
            proof {
                lemma_removed_bases_push(self.segs().take(k as int),
                    self.segs()[k as int], offset);
                assert(self.segs().take(k as int).push(self.segs()[k as int])
                    =~= self.segs().take(k + 1));
            }
            if sg_base >= offset {
                out.push(sg_base);
            }
            k = k + 1;
        }
        proof {
            assert(self.segs().take(n as int) =~= self.segs());
        }
        out
    }

    /// The offset the next append will be assigned.
    pub fn next_offset(&self) -> (r: u64)
        ensures
            r == self.next_spec(),
    {
        self.next_offset
    }

    /// The lowest offset available in the log.
    pub fn base_offset(&self) -> (r: u64)
        requires
            self.inv(),
        ensures
            r == self.base_spec(),
    {
        self.segments[0].base_offset()
    }

    /// The highest assigned offset, or nothing before the first append.
    pub fn latest_offset(&self) -> (r: Option<u64>)
        ensures
            self.next_spec() > 0 ==> r == Some((self.next_spec() - 1) as u64),
            self.next_spec() == 0 ==> r is None,
    {
        if self.next_offset > 0 {
            Some(self.next_offset - 1)
        } else {
            None
        }
    }

    /// The number of segments the log currently holds.
    pub fn segment_count(&self) -> (r: usize)
        ensures
            r == self.segs().len(),
    {
        self.segments.len()
    }

    /// Whether the log holds no records at all, in any segment.
    pub fn is_empty(&self) -> (r: bool)
        requires
            self.inv(),
        ensures
            r == (forall|k: int| 0 <= k < self.segs().len()
                ==> (#[trigger] self.segs()[k]).entries().len() == 0),
    {
        let n = self.segments.len();
        let mut k: usize = 0;
        while k < n
            invariant
                k <= n,
                n == self.segs().len(),
                forall|j: int| 0 <= j < k ==> (#[trigger] self.segs()[j]).entries().len() == 0,
            decreases n - k,
        {
            if !self.segments[k].is_empty() {
                return false;
            }
            k = k + 1;
        }
        true
    }

    /// The persisted form of every segment: base offset plus the raw
    /// bytes of its store and index files, for the embedding application
    /// to write out.
    pub fn segment_images(&self) -> (r: Vec<SegmentImage>)
        requires
            self.inv(),
        ensures
            r@.len() == self.segs().len(),
            forall|k: int| 0 <= k < r@.len() ==> {
                let img = #[trigger] r@[k];
                &&& img.base_offset == self.segs()[k].base_spec()
                &&& img.store_bytes@ == encode_records(self.segs()[k].recs())
                &&& img.index_bytes@ == encode_entries(self.segs()[k].entries())
            },
    {
        let n = self.segments.len();
        let mut out: Vec<SegmentImage> = Vec::new();
        let mut k: usize = 0;
        while k < n
            invariant
                k <= n,
                n == self.segs().len(),
                self.inv(),
                out@.len() == k,
                forall|j: int| 0 <= j < k ==> {
                    let img = #[trigger] out@[j];
                    &&& img.base_offset == self.segs()[j].base_spec()
                    &&& img.store_bytes@ == encode_records(self.segs()[j].recs())
                    &&& img.index_bytes@ == encode_entries(self.segs()[j].entries())
                },
            decreases n - k,
        {
            let sg = &self.segments[k];
            let img = SegmentImage {
                base_offset: sg.base_offset(),
                store_bytes: vstd::slice::slice_to_vec(sg.store_file_bytes().as_slice()),
                index_bytes: sg.index_file_bytes(),
            };
            out.push(img);
            k = k + 1;
        }
        out
    }

    /// The total byte size of the log: the sum of its stores' sizes.
    pub fn total_size(&self) -> (r: u64)
        requires
            self.inv(),
            segs_total_size(self.segs()) <= u64::MAX,
        ensures
            r == segs_total_size(self.segs()),
    {
        let n = self.segments.len();
        let mut sum: u64 = 0;
        let mut k: usize = 0;
        proof {
            assert(self.segs().take(0) =~= Seq::<Segment>::empty());
        }
        while k < n
            invariant
                k <= n,
                n == self.segs().len(),
                self.inv(),
                segs_total_size(self.segs()) <= u64::MAX,
                sum == segs_total_size(self.segs().take(k as int)),
            decreases n - k,
        {
            proof {
                lemma_segs_total_split(self.segs(), k as int);
                lemma_segs_total_nonneg(self.segs().take(k as int));
                lemma_segs_total_nonneg(self.segs().skip(k as int));
                lemma_segs_total_nonneg(self.segs().skip(k + 1));
                assert(self.segs().skip(k as int)[0] == self.segs()[k as int]);
                assert(self.segs().skip(k as int).drop_first() =~= self.segs().skip(k + 1));
                assert(segs_total_size(self.segs().skip(k as int))
                    == self.segs()[k as int].store_size_spec()
                        + segs_total_size(self.segs().skip(k + 1)));
                lemma_segs_total_push(self.segs().take(k as int), self.segs()[k as int]);
                assert(self.segs().take(k as int).push(self.segs()[k as int])
                    =~= self.segs().take(k + 1));
            }
            sum = sum + self.segments[k].store_size();
            k = k + 1;
        }
        proof {
            assert(self.segs().take(n as int) =~= self.segs());
        }
        sum
    }
}

/// The base offsets at or above the cutoff, in segment order.
pub open spec fn removed_bases(ss: Seq<Segment>, offset: u64) -> Seq<u64>
    decreases ss.len(),
{
    if ss.len() == 0 {
        Seq::empty()
    } else if ss[0].base_spec() >= offset {
        seq![ss[0].base_spec()] + removed_bases(ss.drop_first(), offset)
    } else {
        removed_bases(ss.drop_first(), offset)
    }
}

proof fn lemma_removed_bases_push(ss: Seq<Segment>, sg: Segment, offset: u64)
    ensures
        removed_bases(ss.push(sg), offset) == if sg.base_spec() >= offset {
            removed_bases(ss, offset).push(sg.base_spec())
        } else {
            removed_bases(ss, offset)
        },
    decreases ss.len(),
{
    if ss.len() == 0 {
        assert(ss.push(sg).drop_first() =~= Seq::<Segment>::empty());
        assert(ss.push(sg)[0] == sg);
        if sg.base_spec() >= offset {
            assert(removed_bases(ss.push(sg), offset)
                == seq![sg.base_spec()] + removed_bases(Seq::<Segment>::empty(), offset));
            assert(removed_bases(ss.push(sg), offset)
                =~= removed_bases(ss, offset).push(sg.base_spec()));
        } else {
            assert(removed_bases(ss.push(sg), offset)
                == removed_bases(Seq::<Segment>::empty(), offset));
            assert(removed_bases(ss.push(sg), offset) =~= removed_bases(ss, offset));
        }
    } else {
        assert(ss.push(sg).drop_first() =~= ss.drop_first().push(sg));
        assert(ss.push(sg)[0] == ss[0]);
        lemma_removed_bases_push(ss.drop_first(), sg, offset);
        if sg.base_spec() >= offset {
            assert(removed_bases(ss.push(sg), offset)
                =~= removed_bases(ss, offset).push(sg.base_spec()));
        } else {
            assert(removed_bases(ss.push(sg), offset) =~= removed_bases(ss, offset));
        }
    }
}

proof fn lemma_segs_total_push(ss: Seq<Segment>, sg: Segment)
    ensures
        segs_total_size(ss.push(sg)) == segs_total_size(ss) + sg.store_size_spec(),
    decreases ss.len(),
{
    if ss.len() == 0 {
        assert(ss.push(sg).drop_first() =~= Seq::<Segment>::empty());
        assert(ss.push(sg)[0] == sg);
        assert(segs_total_size(ss.push(sg))
            == sg.store_size_spec() + segs_total_size(Seq::<Segment>::empty()));
    } else {
        assert(ss.push(sg).drop_first() =~= ss.drop_first().push(sg));
        assert(ss.push(sg)[0] == ss[0]);
        lemma_segs_total_push(ss.drop_first(), sg);
    }
}


/// Dense monotonic offsets law: in a coherent log the next offset is the
/// base offset plus the number of records, so each append (which returns
/// the next offset and then increments it) hands out base, base+1, ... in
/// order, and a log grown from a fresh one by n appends has next offset n.
pub proof fn lemma_dense_offsets(l: Log)
    requires
        l.wf(),
    ensures
        l.next_spec() == l.base_spec() + l.records().len(),
{
    lemma_chain_next(l.segs());
}

/// Round-trip law: every offset in a coherent log's range is covered by
/// exactly the segment holding the record appended at that offset, and the
/// record selected there is the one at that offset in the log's record
/// sequence — so a read returns what the matching append stored.
pub proof fn lemma_round_trip(l: Log, o: u64)
    requires
        l.wf(),
        l.base_spec() <= o < l.next_spec(),
    ensures
        0 <= o - l.base_spec() < l.records().len(),
        exists|k: int| 0 <= k < l.segs().len()
            && (#[trigger] l.segs()[k]).base_spec() <= o < l.segs()[k].next_spec()
            && l.segs()[k].recs()[o - l.segs()[k].base_spec()]
                == l.records()[o - l.base_spec()],
{
    lemma_chain_coverage(l.segs(), o);
    let k = choose|k: int| 0 <= k < l.segs().len()
        && (#[trigger] l.segs()[k]).base_spec() <= o < l.segs()[k].next_spec();
    lemma_chain_dispatch(l.segs(), k, o);
    assert(0 <= k < l.segs().len()
        && (#[trigger] l.segs()[k]).base_spec() <= o < l.segs()[k].next_spec()
        && l.segs()[k].recs()[o - l.segs()[k].base_spec()]
            == l.records()[o - l.base_spec()]);
}

/// Segment rotation law: in a log grown purely by appends, with a positive
/// byte cap and the entry cap never the binding one, the first record at
/// which the cumulative on-disk size reaches the byte cap cannot sit in
/// the first segment: the log has rotated, and that record lives in the
/// second segment.
pub proof fn lemma_segment_rotation(l: Log, r: int)
    requires
        l.wf(),
        l.packed(),
        l.config_spec().max_store_bytes > 0,
        forall|k: int| 0 <= k < l.segs().len()
            ==> (#[trigger] l.segs()[k]).recs().len() < l.config_spec().max_index_entries,
        0 <= r < l.records().len(),
        record_start(l.records(), r) >= l.config_spec().max_store_bytes,
        forall|q: int| 0 <= q < r
            ==> #[trigger] record_start(l.records(), q) < l.config_spec().max_store_bytes,
    ensures
        l.segs().len() >= 2,
        l.segs()[0].recs().len() <= r < l.segs()[0].recs().len() + l.segs()[1].recs().len(),
{
    let ss = l.segs();
    let m = l.config_spec().max_store_bytes;
    let c0 = ss[0].recs().len() as int;
    let records = l.records();
    assert(records == ss[0].recs() + segs_records(ss.drop_first()));
    // the cap-reaching record is not in the first segment
    if r < c0 {
        assert(records.take(r) =~= ss[0].recs().take(r));
        assert(record_start(records, r) == record_start(ss[0].recs(), r));
        if r == 0 {
            assert(ss[0].recs().take(0) =~= Seq::<Seq<u8>>::empty());
            assert(record_start(ss[0].recs(), 0) == 0);
        } else {
            lemma_packed_at(l, 0, r);
        }
        assert(false);
    }
    // so the log has at least two segments
    if ss.len() == 1 {
        assert(segs_records(ss.drop_first()) =~= Seq::<Seq<u8>>::empty());
        assert(records.len() == c0);
        assert(false);
    }
    // and the record is not beyond the second segment either
    let c1 = ss[1].recs().len() as int;
    if r >= c0 + c1 {
        // segment 1 is then not the active one, hence full, hence at the
        // byte cap, and already the start of its first record refutes the
        // minimality of r
        assert(ss.len() >= 3) by {
            if ss.len() == 2 {
                lemma_segs_records_snoc(ss);
                assert(ss.drop_last()[0] == ss[0]);
                assert(segs_records(ss.drop_last()) == ss[0].recs()
                    + segs_records(ss.drop_last().drop_first()));
                assert(ss.drop_last().drop_first() =~= Seq::<Segment>::empty());
                assert(records.len() == c0 + c1);
            }
        }
        assert(ss[0].is_full_spec());
        assert(ss[0].recs().len() < l.config_spec().max_index_entries);
        assert(ss[0].store_size_spec() >= m);
        assert(records.take(c0) =~= ss[0].recs());
        assert(record_start(records, c0) == ss[0].store_size_spec());
        assert(ss[1].is_full_spec());
        assert(ss[1].store_size_spec() >= m);
        assert(c1 >= 1) by {
            if c1 == 0 {
                assert(ss[1].recs() =~= Seq::<Seq<u8>>::empty());
                assert(encode_records(ss[1].recs()).len() == 0);
            }
        }
        assert(0 <= c0 < r);
        assert(record_start(records, c0) < m);
        assert(false);
    }
}

/// Truncate law, the whole-log case: a cutoff at or below the base offset
/// drops every segment, so truncation leaves a fresh, empty, coherent log
/// whose base and next offset are the cutoff; every read then fails with
/// `OffsetNotFound` and the next append returns the cutoff.
pub proof fn lemma_truncate_drops_all(l: Log, offset: u64)
    requires
        l.wf(),
        offset <= l.base_spec(),
    ensures
        keep_below(l.segs(), offset).len() == 0,
{
    lemma_chain_next(l.segs());
    lemma_keep_below_none(l.segs(), offset);
}

/// Persistence law: writing every segment of a coherent log out (store and
/// index files) and reopening the images rebuilds the same log. The images
/// come back in the same order (their bases ascend strictly), every file
/// parses back to the same records and entries, and the next offset is
/// recomputed to the same value — provided every record is within the
/// recovery scan's sanity bound and no dormant segment is empty.
pub proof fn lemma_log_reopen(l: Log, images: Seq<SegmentImage>)
    requires
        l.wf(),
        images.len() == l.segs().len(),
        forall|k: int| 0 <= k < images.len() ==> {
            let img = #[trigger] images[k];
            &&& img.base_offset == l.segs()[k].base_spec()
            &&& img.store_bytes@ == encode_records(l.segs()[k].recs())
            &&& img.index_bytes@ == encode_entries(l.segs()[k].entries())
        },
        forall|k: int, i: int| 0 <= k < l.segs().len()
            && 0 <= i < l.segs()[k].recs().len()
            ==> (#[trigger] l.segs()[k].recs()[i]).len() <= MAX_RECORD_LEN,
        forall|k: int| 0 <= k < l.segs().len() - 1
            ==> (#[trigger] l.segs()[k]).recs().len() >= 1,
    ensures
        sort_by_base(images) == images,
        forall|k: int| 0 <= k < images.len()
            ==> seg_matches_image(l.segs()[k], #[trigger] images[k], l.config_spec()),
        forall|k: int| 0 <= k < images.len()
            ==> !has_max_offset_entry(parse_entries((#[trigger] images[k]).index_bytes@)),
{
    let ss = l.segs();
    assert forall|k: int| 0 <= k < images.len()
        implies seg_matches_image(ss[k], #[trigger] images[k], l.config_spec())
            && !has_max_offset_entry(parse_entries(images[k].index_bytes@)) by {
        assert(forall|i: int| 0 <= i < ss[k].recs().len()
            ==> (#[trigger] ss[k].recs()[i]).len() <= MAX_RECORD_LEN);
        lemma_segment_reopen(ss[k]);
    }
    // bases ascend strictly, so sorting leaves the images in place
    assert forall|i: int, j: int| 0 <= i < j < images.len()
        implies (#[trigger] images[i]).base_offset < (#[trigger] images[j]).base_offset by {
        let si = ss.skip(i + 1);
        assert(segs_chain(si)) by {
            assert(forall|q: int| 0 <= q < si.len() ==> si[q] == ss[q + i + 1]);
            assert(forall|q: int| 0 < q < si.len()
                ==> (#[trigger] si[q]).base_spec() == si[q - 1].next_spec());
        }
        lemma_chain_next(si);
        assert(si[j - i - 1] == ss[j]);
        assert(ss[j].base_spec() >= ss[i + 1].base_spec());
        assert(ss[i + 1].base_spec() == ss[i].next_spec());
        assert(ss[i].next_spec() == ss[i].base_spec() + ss[i].recs().len());
        assert(ss[i].recs().len() >= 1);
    }
    lemma_sort_of_sorted(images);
}

} // verus!
