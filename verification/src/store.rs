//! The store engine: set/get/remove over an append-only log of encoded
//! commands, an in-memory index pointing at the latest `Put` record per
//! key, and compaction that rewrites the live records into a fresh
//! segment.
//!
//! The central invariant (kept in [`KvStore::wf`]) is index/log
//! consistency: every index entry points at the start of a `Put` record
//! whose key matches, every segment is a clean concatenation of
//! records, and replaying all segments from an empty index reproduces
//! the index exactly — so closing and reopening the engine loses
//! nothing.

use vstd::prelude::*;
use vstd::slice::{slice_subrange, slice_to_vec};
use crate::codec::{
    decode_at, encode, spec_decode, Command, CommandView, DecodeOutcome, SpecDecodeOutcome,
    lemma_decode_encode_len, lemma_decode_prefix_stable, lemma_decode_take, lemma_encode_decode,
    lemma_record_len, push_bytes, spec_command_encodable, spec_encode,
};
use crate::error::MyError;
use crate::index::{Index, IndexEntry, LogPointer, lemma_entries_map_contains,
    lemma_entries_map_value};
use crate::segment::Segment;

verus! {

/// How many superseded records may pile up before a mutation triggers
/// compaction.
pub const REDUNDANT_COMMANDS_THRESHOLD: u64 = 100;

/// The bytes at `off` in `data` decode to a `Put` record for key `k`.
pub open spec fn decodes_put_for(data: Seq<u8>, off: int, k: Seq<char>) -> bool {
    match spec_decode(data.skip(off)) {
        SpecDecodeOutcome::Record { cmd, .. } => match cmd {
            CommandView::Put { key, .. } => key == k,
            CommandView::Remove { .. } => false,
        },
        SpecDecodeOutcome::Incomplete => false,
        SpecDecodeOutcome::Malformed => false,
    }
}

/// The value carried by the `Put` record at `off` in `data`.
pub open spec fn put_value_at(data: Seq<u8>, off: int) -> Seq<char> {
    match spec_decode(data.skip(off)) {
        SpecDecodeOutcome::Record { cmd, .. } => match cmd {
            CommandView::Put { value, .. } => value,
            CommandView::Remove { .. } => Seq::empty(),
        },
        SpecDecodeOutcome::Incomplete => Seq::empty(),
        SpecDecodeOutcome::Malformed => Seq::empty(),
    }
}

/// Segment generations appear in strictly ascending order.
pub open spec fn gens_increasing(segs: Seq<Segment>) -> bool {
    forall|i: int, j: int| 0 <= i < j < segs.len() ==> segs[i].generation < segs[j].generation
}

/// Some segment carries this generation.
pub open spec fn has_gen(segs: Seq<Segment>, gen: u64) -> bool {
    exists|i: int| 0 <= i < segs.len() && segs[i].generation == gen
}

/// The position of the segment carrying this generation.
pub open spec fn gen_index(segs: Seq<Segment>, gen: u64) -> int {
    choose|i: int| 0 <= i < segs.len() && segs[i].generation == gen
}

/// With ascending generations, a generation names one segment only.
pub proof fn lemma_gen_index_unique(segs: Seq<Segment>, i: int)
    requires
        gens_increasing(segs),
        0 <= i < segs.len(),
    ensures
        has_gen(segs, segs[i].generation),
        gen_index(segs, segs[i].generation) == i,
{
    assert(has_gen(segs, segs[i].generation));
    let j = gen_index(segs, segs[i].generation);
    assert(0 <= j < segs.len() && segs[j].generation == segs[i].generation);
    if j < i {
        assert(segs[j].generation < segs[i].generation);
    } else if i < j {
        assert(segs[i].generation < segs[j].generation);
    }
}

/// An index entry points at the start of a `Put` record for its own key.
pub open spec fn ptr_valid(segs: Seq<Segment>, k: Seq<char>, p: LogPointer) -> bool {
    &&& has_gen(segs, p.generation)
    &&& p.offset <= segs[gen_index(segs, p.generation)].data@.len()
    &&& decodes_put_for(segs[gen_index(segs, p.generation)].data@, p.offset as int, k)
}

/// The value a pointer designates.
pub open spec fn stored_value(segs: Seq<Segment>, p: LogPointer) -> Seq<char> {
    put_value_at(segs[gen_index(segs, p.generation)].data@, p.offset as int)
}

/// The key-to-value map spelled out by an index over these segments.
pub open spec fn kv_view(index: Map<Seq<char>, LogPointer>, segs: Seq<Segment>) -> Map<
    Seq<char>,
    Seq<char>,
> {
    Map::new(
        |k: Seq<char>| index.contains_key(k),
        |k: Seq<char>| stored_value(segs, index[k]),
    )
}

/// What one replayed record does to the index: a `Put` points its key
/// at the record's start, a `Remove` evicts its key.
pub open spec fn apply_cmd(
    m: Map<Seq<char>, LogPointer>,
    cmd: CommandView,
    gen: u64,
    off: int,
) -> Map<Seq<char>, LogPointer> {
    match cmd {
        CommandView::Put { key, .. } => m.insert(
            key,
            LogPointer { generation: gen, offset: off as usize },
        ),
        CommandView::Remove { key } => m.remove(key),
    }
}

/// Where replay of one segment stops when started at `off`: just before
/// the trailing incomplete record, or `None` on a malformed one.
pub open spec fn seg_end(data: Seq<u8>, off: int) -> Option<int>
    decreases data.len() - off,
        when 0 <= off <= data.len()
        via seg_end_dec
{
    match spec_decode(data.skip(off)) {
        SpecDecodeOutcome::Record { cmd, len } => seg_end(data, off + len),
        SpecDecodeOutcome::Incomplete => Some(off),
        SpecDecodeOutcome::Malformed => None,
    }
}

#[via_fn]
proof fn seg_end_dec(data: Seq<u8>, off: int) {
    lemma_record_len(data.skip(off));
}

/// The index produced by replaying one segment from `off`, starting
/// from the index `m`.  Where `seg_end` is `None` the tail past the
/// malformed record is ignored; replay of a whole log never uses the
/// result there.
pub open spec fn seg_replay(
    data: Seq<u8>,
    gen: u64,
    off: int,
    m: Map<Seq<char>, LogPointer>,
) -> Map<Seq<char>, LogPointer>
    decreases data.len() - off,
        when 0 <= off <= data.len()
        via seg_replay_dec
{
    match spec_decode(data.skip(off)) {
        SpecDecodeOutcome::Record { cmd, len } => seg_replay(
            data,
            gen,
            off + len,
            apply_cmd(m, cmd, gen, off),
        ),
        SpecDecodeOutcome::Incomplete => m,
        SpecDecodeOutcome::Malformed => m,
    }
}

#[via_fn]
proof fn seg_replay_dec(data: Seq<u8>, gen: u64, off: int, m: Map<Seq<char>, LogPointer>) {
    lemma_record_len(data.skip(off));
}

/// The index produced by replaying segments `i` onward in order,
/// starting from the index `m`; `None` when some segment holds a
/// malformed record.
pub open spec fn log_replay(segs: Seq<Segment>, i: int, m: Map<Seq<char>, LogPointer>) -> Option<
    Map<Seq<char>, LogPointer>,
>
    decreases segs.len() - i,
        when 0 <= i <= segs.len()
{
    if i == segs.len() {
        Some(m)
    } else {
        match seg_end(segs[i].data@, 0) {
            Some(_) => log_replay(segs, i + 1, seg_replay(segs[i].data@, segs[i].generation, 0, m)),
            None => None,
        }
    }
}

/// Feeding one more segment into a replayed index.
pub open spec fn replay_step(om: Option<Map<Seq<char>, LogPointer>>, seg: Segment) -> Option<
    Map<Seq<char>, LogPointer>,
> {
    match om {
        Some(m) => match seg_end(seg.data@, 0) {
            Some(_) => Some(seg_replay(seg.data@, seg.generation, 0, m)),
            None => None,
        },
        None => None,
    }
}

/// Replaying a log is replaying all but its last segment, then that
/// segment.
pub proof fn lemma_log_replay_snoc(segs: Seq<Segment>, i: int, m: Map<Seq<char>, LogPointer>)
    requires
        segs.len() >= 1,
        0 <= i <= segs.len() - 1,
    ensures
        log_replay(segs, i, m) == replay_step(log_replay(segs.drop_last(), i, m), segs.last()),
    decreases segs.len() - i,
{
    let t = segs.drop_last();
    if i == segs.len() - 1 {
        assert(log_replay(t, i, m) == Some(m));
    } else {
        assert(t[i] == segs[i]);
        match seg_end(segs[i].data@, 0) {
            Some(_) => {
                lemma_log_replay_snoc(
                    segs,
                    i + 1,
                    seg_replay(segs[i].data@, segs[i].generation, 0, m),
                );
            },
            None => {},
        }
    }
}

/// Replay stops no earlier than it starts and no later than the data
/// ends.
pub proof fn lemma_seg_end_bounds(data: Seq<u8>, off: int)
    requires
        0 <= off <= data.len(),
    ensures
        seg_end(data, off) matches Some(e) ==> off <= e <= data.len(),
    decreases data.len() - off,
{
    lemma_record_len(data.skip(off));
    match spec_decode(data.skip(off)) {
        SpecDecodeOutcome::Record { cmd, len } => {
            lemma_seg_end_bounds(data, off + len);
        },
        SpecDecodeOutcome::Incomplete => {},
        SpecDecodeOutcome::Malformed => {},
    }
}

/// Appending one complete record to a cleanly-parsed segment keeps it
/// clean, and replaying it applies exactly that record at the old end.
pub proof fn lemma_seg_extend(
    data: Seq<u8>,
    ext: Seq<u8>,
    gen: u64,
    off: int,
    m: Map<Seq<char>, LogPointer>,
    c: CommandView,
)
    requires
        0 <= off <= data.len(),
        seg_end(data, off) == Some(data.len() as int),
        spec_decode(ext) == (SpecDecodeOutcome::Record { cmd: c, len: ext.len() as int }),
    ensures
        seg_end(data + ext, off) == Some((data + ext).len() as int),
        seg_replay(data + ext, gen, off, m) == apply_cmd(
            seg_replay(data, gen, off, m),
            c,
            gen,
            data.len() as int,
        ),
    decreases data.len() - off,
{
    let d2 = data + ext;
    lemma_record_len(data.skip(off));
    match spec_decode(data.skip(off)) {
        SpecDecodeOutcome::Record { cmd, len } => {
            assert(d2.skip(off) =~= data.skip(off) + ext);
            lemma_decode_prefix_stable(data.skip(off), ext);
            lemma_seg_extend(data, ext, gen, off + len, apply_cmd(m, cmd, gen, off), c);
        },
        SpecDecodeOutcome::Incomplete => {
            assert(off == data.len());
            assert(d2.skip(off) =~= ext);
            lemma_record_len(ext);
            assert(d2.skip(off + ext.len() as int) =~= Seq::<u8>::empty());
            assert(seg_end(d2, off + ext.len() as int) == Some(d2.len() as int));
            assert(seg_replay(d2, gen, off + ext.len() as int, apply_cmd(m, c, gen, off))
                == apply_cmd(m, c, gen, off));
        },
        SpecDecodeOutcome::Malformed => {
            assert(false);
        },
    }
}

/// The segment lists differ only in that the last segment of `news`
/// carries `ext` appended after the bytes it had in `olds`.
pub open spec fn segs_extended(olds: Seq<Segment>, news: Seq<Segment>, ext: Seq<u8>) -> bool {
    &&& olds.len() >= 1
    &&& news.len() == olds.len()
    &&& (forall|i: int| 0 <= i < olds.len() - 1 ==> news[i] == olds[i])
    &&& news.last().generation == olds.last().generation
    &&& news.last().data@ == olds.last().data@ + ext
}

/// Appending one complete record to the active segment re-plays as
/// applying that record's command to the replayed index.
pub proof fn lemma_append_active(
    olds: Seq<Segment>,
    news: Seq<Segment>,
    ext: Seq<u8>,
    c: CommandView,
    oldindex: Map<Seq<char>, LogPointer>,
)
    requires
        segs_extended(olds, news, ext),
        gens_increasing(olds),
        forall|i: int|
            0 <= i < olds.len() ==> #[trigger] seg_end(olds[i].data@, 0) == Some(
                olds[i].data@.len() as int,
            ),
        log_replay(olds, 0, Map::empty()) == Some(oldindex),
        spec_decode(ext) == (SpecDecodeOutcome::Record { cmd: c, len: ext.len() as int }),
    ensures
        gens_increasing(news),
        forall|i: int|
            0 <= i < news.len() ==> #[trigger] seg_end(news[i].data@, 0) == Some(
                news[i].data@.len() as int,
            ),
        log_replay(news, 0, Map::empty()) == Some(
            apply_cmd(oldindex, c, olds.last().generation, olds.last().data@.len() as int),
        ),
{
    let n = olds.len();
    let gen = olds.last().generation;
    assert(gens_increasing(news)) by {
        assert forall|i: int, j: int| 0 <= i < j < news.len() implies news[i].generation
            < news[j].generation by {
            assert(news[i].generation == olds[i].generation);
            assert(news[j].generation == olds[j].generation);
        }
    }
    lemma_log_replay_snoc(olds, 0, Map::empty());
    match log_replay(olds.drop_last(), 0, Map::empty()) {
        None => {
            assert(false);
        },
        Some(mid) => {
            assert(seg_replay(olds.last().data@, gen, 0, mid) == oldindex);
            lemma_seg_extend(olds.last().data@, ext, gen, 0, mid, c);
            assert(forall|i: int|
                0 <= i < news.len() ==> #[trigger] seg_end(news[i].data@, 0) == Some(
                    news[i].data@.len() as int,
                )) by {
                assert(forall|i: int| 0 <= i < n - 1 ==> news[i] == olds[i]);
                assert(news.last().data@ == olds.last().data@ + ext);
            }
            lemma_log_replay_snoc(news, 0, Map::empty());
            assert(news.drop_last() =~= olds.drop_last());
            assert(log_replay(news, 0, Map::empty()) == replay_step(Some(mid), news.last()));
        },
    }
}

/// A pointer that was valid before the active segment grew stays valid
/// and designates the same value.
pub proof fn lemma_ptr_stable(
    olds: Seq<Segment>,
    news: Seq<Segment>,
    ext: Seq<u8>,
    k: Seq<char>,
    p: LogPointer,
)
    requires
        segs_extended(olds, news, ext),
        gens_increasing(olds),
        gens_increasing(news),
        ptr_valid(olds, k, p),
    ensures
        ptr_valid(news, k, p),
        stored_value(news, p) == stored_value(olds, p),
{
    let n = olds.len();
    let gi = gen_index(olds, p.generation);
    assert(0 <= gi < n && olds[gi].generation == p.generation);
    assert(news[gi].generation == p.generation);
    lemma_gen_index_unique(news, gi);
    assert(gen_index(news, p.generation) == gi);
    if gi < n - 1 {
        assert(news[gi] == olds[gi]);
    } else {
        assert(news[gi].data@ == olds[gi].data@ + ext);
        assert(news[gi].data@.skip(p.offset as int) =~= olds[gi].data@.skip(p.offset as int)
            + ext);
        lemma_decode_prefix_stable(olds[gi].data@.skip(p.offset as int), ext);
    }
}

/// How much of a segment's data replay consumes: everything up to the
/// trailing incomplete record.  Only meaningful where `seg_end` is not
/// `None`.
pub open spec fn clean_len(data: Seq<u8>) -> int {
    match seg_end(data, 0) {
        Some(e) => e,
        None => 0,
    }
}

/// Replay of one segment put this pointer in the index: it names that
/// segment's generation and a `Put` record for its key that ends by
/// `bound`.
pub open spec fn replayed_ptr_ok(
    data: Seq<u8>,
    p: LogPointer,
    k: Seq<char>,
    gen: u64,
    bound: int,
) -> bool {
    &&& p.generation == gen
    &&& match spec_decode(data.skip(p.offset as int)) {
        SpecDecodeOutcome::Record { cmd, len } => (match cmd {
            CommandView::Put { key, .. } => key == k,
            CommandView::Remove { .. } => false,
        }) && p.offset + len <= bound,
        SpecDecodeOutcome::Incomplete => false,
        SpecDecodeOutcome::Malformed => false,
    }
}

/// Cutting a segment at its replay end changes neither where replay
/// stops nor what it builds.
pub proof fn lemma_seg_take(
    data: Seq<u8>,
    gen: u64,
    off: int,
    m: Map<Seq<char>, LogPointer>,
    end: int,
)
    requires
        0 <= off <= end <= data.len(),
        seg_end(data, off) == Some(end),
    ensures
        seg_end(data.take(end), off) == Some(end),
        seg_replay(data.take(end), gen, off, m) == seg_replay(data, gen, off, m),
    decreases end - off,
{
    let t = data.take(end);
    lemma_record_len(data.skip(off));
    match spec_decode(data.skip(off)) {
        SpecDecodeOutcome::Record { cmd, len } => {
            lemma_seg_end_bounds(data, off + len);
            assert(t.skip(off) =~= data.skip(off).take(end - off));
            lemma_decode_take(data.skip(off), cmd, len, end - off);
            lemma_seg_take(data, gen, off + len, apply_cmd(m, cmd, gen, off), end);
        },
        SpecDecodeOutcome::Incomplete => {
            assert(off == end);
            assert(t.skip(off) =~= Seq::<u8>::empty());
        },
        SpecDecodeOutcome::Malformed => {
            assert(false);
        },
    }
}

/// A pointer into some segment stays valid when a later segment is
/// appended after it.
pub proof fn lemma_ptr_valid_push(segs: Seq<Segment>, seg: Segment, k: Seq<char>, p: LogPointer)
    requires
        gens_increasing(segs.push(seg)),
        ptr_valid(segs, k, p),
    ensures
        ptr_valid(segs.push(seg), k, p),
        stored_value(segs.push(seg), p) == stored_value(segs, p),
{
    let gi = gen_index(segs, p.generation);
    assert(0 <= gi < segs.len() && segs[gi].generation == p.generation);
    assert(segs.push(seg)[gi] == segs[gi]);
    lemma_gen_index_unique(segs.push(seg), gi);
}

/// The bytes all segments hold together.
pub open spec fn total_size(segs: Seq<Segment>) -> int
    decreases segs.len(),
{
    if segs.len() == 0 {
        0
    } else {
        total_size(segs.drop_last()) + segs.last().data@.len()
    }
}

/// A sum of integers, used for byte counts.
pub open spec fn sum_ints(s: Seq<int>) -> int
    decreases s.len(),
{
    if s.len() == 0 {
        0
    } else {
        sum_ints(s.drop_last()) + s.last()
    }
}

/// Replacing one element moves the sum by the difference.
pub proof fn lemma_sum_ints_update(s: Seq<int>, i: int, v: int)
    requires
        0 <= i < s.len(),
    ensures
        sum_ints(s.update(i, v)) == sum_ints(s) - s[i] + v,
    decreases s.len(),
{
    let u = s.update(i, v);
    if i == s.len() - 1 {
        assert(u.drop_last() =~= s.drop_last());
        assert(u.last() == v);
    } else {
        assert(u.drop_last() =~= s.drop_last().update(i, v));
        assert(u.last() == s.last());
        assert(s.drop_last()[i] == s[i]);
        lemma_sum_ints_update(s.drop_last(), i, v);
    }
}

/// Appending an element adds it to the sum.
pub proof fn lemma_sum_ints_push(s: Seq<int>, v: int)
    ensures
        sum_ints(s.push(v)) == sum_ints(s) + v,
{
    assert(s.push(v).drop_last() =~= s);
    assert(s.push(v).last() == v);
}

/// Dropping an element removes it from the sum.
pub proof fn lemma_sum_ints_remove(s: Seq<int>, i: int)
    requires
        0 <= i < s.len(),
    ensures
        sum_ints(s.remove(i)) == sum_ints(s) - s[i],
    decreases s.len(),
{
    let r = s.remove(i);
    if i == s.len() - 1 {
        assert(r =~= s.drop_last());
    } else {
        assert(r.last() == s.last());
        assert(r.drop_last() =~= s.drop_last().remove(i));
        assert(s.drop_last()[i] == s[i]);
        lemma_sum_ints_remove(s.drop_last(), i);
    }
}

/// The bytes one fresh `Put` record for this entry's key and value
/// would take.
pub open spec fn entry_size(e: IndexEntry, segs: Seq<Segment>) -> int {
    spec_encode(CommandView::Put { key: e.key@, value: stored_value(segs, e.ptr) }).len() as int
}

/// As `entry_size`, but reading the value out of a single segment's
/// bytes.
pub open spec fn entry_size_in(e: IndexEntry, data: Seq<u8>) -> int {
    spec_encode(
        CommandView::Put { key: e.key@, value: put_value_at(data, e.ptr.offset as int) },
    ).len() as int
}

/// The per-entry byte counts against a whole log.
pub open spec fn sizes_of(entries: Seq<IndexEntry>, segs: Seq<Segment>) -> Seq<int> {
    Seq::new(entries.len(), |i: int| entry_size(entries[i], segs))
}

/// The per-entry byte counts against a single segment's bytes.
pub open spec fn sizes_in_of(entries: Seq<IndexEntry>, data: Seq<u8>) -> Seq<int> {
    Seq::new(entries.len(), |i: int| entry_size_in(entries[i], data))
}

/// The bytes the live records would take if each were rewritten once:
/// what the log shrinks to under compaction.
pub open spec fn live_size(entries: Seq<IndexEntry>, segs: Seq<Segment>) -> int {
    sum_ints(sizes_of(entries, segs))
}

/// Growing the active segment grows the log by exactly the appended
/// bytes.
pub proof fn lemma_total_size_extended(olds: Seq<Segment>, news: Seq<Segment>, ext: Seq<u8>)
    requires
        segs_extended(olds, news, ext),
    ensures
        total_size(news) == total_size(olds) + ext.len(),
{
    assert(news.drop_last() =~= olds.drop_last());
}

/// The store engine.
pub struct KvStore {
    /// The in-memory index: each live key and where its latest `Put`
    /// record begins.
    pub store: Index,
    /// All on-disk segments, ascending by generation; the last one is
    /// the active (writable) segment.
    pub segments: Vec<Segment>,
    /// Superseded records written since the last compaction.
    pub redundant_commands: u64,
}

impl View for KvStore {
    type V = Map<Seq<char>, Seq<char>>;

    open spec fn view(&self) -> Map<Seq<char>, Seq<char>> {
        kv_view(self.store@, self.segments@)
    }
}

impl KvStore {
    /// The active (writable) segment.
    pub open spec fn active(self) -> Segment {
        self.segments@.last()
    }

    /// Index/log consistency: the engine's internal invariant.
    pub open spec fn wf(self) -> bool {
        &&& self.store.wf()
        &&& self.segments@.len() >= 1
        &&& gens_increasing(self.segments@)
        &&& forall|k: Seq<char>| #[trigger]
            self.store@.contains_key(k) ==> ptr_valid(self.segments@, k, self.store@[k])
        &&& forall|i: int|
            0 <= i < self.segments@.len() ==> #[trigger] seg_end(self.segments@[i].data@, 0)
                == Some(self.segments@[i].data@.len() as int)
        &&& log_replay(self.segments@, 0, Map::empty()) == Some(self.store@)
    }

    /// The log always has room for its own compaction: one fresh `Put`
    /// record per live key never takes more bytes than the log already
    /// holds.  Live operations keep this, and compaction turns the
    /// inequality into an equality, which is why the log never grows
    /// under compaction.
    pub open spec fn accounted(self) -> bool {
        live_size(self.store.entries@, self.segments@) <= total_size(self.segments@)
    }

    /// A fresh engine: one empty segment of generation 0, nothing live.
    pub fn new() -> (r: KvStore)
        ensures
            r.wf(),
            r@ == Map::<Seq<char>, Seq<char>>::empty(),
            r.segments@.len() == 1,
            r.active().generation == 0,
            r.active().data@.len() == 0,
            r.redundant_commands == 0,
            r.accounted(),
    {
        let mut segments: Vec<Segment> = Vec::new();
        segments.push(Segment::new(0));
        let r = KvStore { store: Index::new(), segments, redundant_commands: 0 };
        proof {
            assert(sizes_of(r.store.entries@, r.segments@) =~= Seq::<int>::empty());
            assert(sum_ints(Seq::<int>::empty()) == 0);
            assert(r.segments@.drop_last() =~= Seq::<Segment>::empty());
            assert(total_size(Seq::<Segment>::empty()) == 0);
            let segs = r.segments@;
            assert(segs[0].data@.skip(0) =~= segs[0].data@);
            assert(seg_end(segs[0].data@, 0) == Some(0int));
            assert(seg_replay(segs[0].data@, 0u64, 0, Map::<Seq<char>, LogPointer>::empty())
                == Map::<Seq<char>, LogPointer>::empty());
            assert(log_replay(segs, 1, Map::<Seq<char>, LogPointer>::empty()) == Some(
                Map::<Seq<char>, LogPointer>::empty(),
            ));
            assert(r@ =~= Map::<Seq<char>, Seq<char>>::empty());
        }
        r
    }

    /// The position of the segment carrying `gen`, by linear scan.
    fn find_segment(&self, gen: u64) -> (r: Option<usize>)
        ensures
            r matches Some(i) ==> i < self.segments@.len() && self.segments@[i as int].generation
                == gen,
            r is None ==> !has_gen(self.segments@, gen),
    {
        let n = self.segments.len();
        let mut i: usize = 0;
        while i < n
            invariant
                i <= n,
                n == self.segments@.len(),
                forall|j: int| 0 <= j < i ==> self.segments@[j].generation != gen,
            decreases n - i,
        {
            if self.segments[i].generation == gen {
                return Some(i);
            }
            i = i + 1;
        }
        None
    }

    /// Append one encoded record to the active segment, returning where
    /// it begins.  The index is untouched: the caller updates it only
    /// after this durable append, so a crash between the two is
    /// recovered by replay.
    fn append_record(&mut self, cmd: &Command) -> (r: LogPointer)
        requires
            old(self).wf(),
        ensures
            segs_extended(old(self).segments@, final(self).segments@, spec_encode(cmd@)),
            final(self).store == old(self).store,
            final(self).redundant_commands == old(self).redundant_commands,
            r.generation == old(self).active().generation,
            r.offset == old(self).active().data@.len(),
            gens_increasing(final(self).segments@),
            forall|i: int|
                0 <= i < final(self).segments@.len() ==> #[trigger] seg_end(
                    final(self).segments@[i].data@,
                    0,
                ) == Some(final(self).segments@[i].data@.len() as int),
            log_replay(final(self).segments@, 0, Map::empty()) == Some(
                apply_cmd(old(self).store@, cmd@, r.generation, r.offset as int),
            ),
            spec_command_encodable(cmd@),
    {
        let enc = encode(cmd);
        let mut seg = self.segments.pop().unwrap();
        let off = seg.data.len();
        let gen = seg.generation;
        push_bytes(&mut seg.data, enc.as_slice());
        self.segments.push(seg);
        proof {
            let olds = old(self).segments@;
            let news = self.segments@;
            assert(segs_extended(olds, news, enc@)) by {
                assert(news.len() == olds.len());
                assert(forall|i: int| 0 <= i < olds.len() - 1 ==> news[i] == olds[i]);
            }
            lemma_encode_decode(cmd@, Seq::<u8>::empty());
            assert(spec_encode(cmd@) + Seq::<u8>::empty() =~= spec_encode(cmd@));
            lemma_append_active(olds, news, enc@, cmd@, old(self).store@);
        }
        LogPointer { generation: gen, offset: off }
    }

    /// Write a key.  The record is appended to the log before the index
    /// is pointed at it.
    pub fn set(&mut self, key: String, value: String) -> (r: Result<(), MyError>)
        requires
            old(self).wf(),
        ensures
            r is Ok,
            final(self).wf(),
            final(self)@ == old(self)@.insert(key@, value@),
            old(self).accounted() ==> final(self).accounted(),
            ({
                // the counter grows by one exactly when the key was
                // already present (saturating only at the type's limit)
                let bumped: u64 = if old(self)@.contains_key(key@) && old(self).redundant_commands
                    < u64::MAX {
                    (old(self).redundant_commands + 1) as u64
                } else {
                    old(self).redundant_commands
                };
                if bumped < REDUNDANT_COMMANDS_THRESHOLD || old(self).active().generation
                    == u64::MAX {
                    // below the threshold no compaction runs: the one
                    // change to the log is the record appended at the
                    // end of the active segment, and the index points
                    // the key at that record's start
                    &&& final(self).redundant_commands == bumped
                    &&& segs_extended(
                        old(self).segments@,
                        final(self).segments@,
                        spec_encode(CommandView::Put { key: key@, value: value@ }),
                    )
                    &&& final(self).active().generation == old(self).active().generation
                    &&& final(self).store@ == old(self).store@.insert(
                        key@,
                        (LogPointer {
                            generation: old(self).active().generation,
                            offset: old(self).active().data@.len() as usize,
                        }),
                    )
                } else {
                    // the write reached the threshold: compaction ran
                    // and reset the counter
                    &&& final(self).redundant_commands == 0
                    &&& final(self).segments@.len() == 1
                    &&& final(self).active().generation == old(self).active().generation + 1
                }
            }),
            old(self).redundant_commands < REDUNDANT_COMMANDS_THRESHOLD
                && old(self).active().generation < u64::MAX ==> final(self).redundant_commands
                < REDUNDANT_COMMANDS_THRESHOLD,
    {
        let prev = match self.store.lookup(&key) {
            Some(_) => true,
            None => false,
        };
        let cmd = Command::Put { key: key.clone(), value };
        let ptr = self.append_record(&cmd);
        self.store.upsert(key, ptr);
        proof {
            let olds = old(self).segments@;
            let news = self.segments@;
            assert(apply_cmd(old(self).store@, cmd@, ptr.generation, ptr.offset as int)
                =~= old(self).store@.insert(key@, ptr));
            lemma_encode_decode(cmd@, Seq::<u8>::empty());
            assert(spec_encode(cmd@) + Seq::<u8>::empty() =~= spec_encode(cmd@));
            lemma_gen_index_unique(news, news.len() - 1);
            assert(news.last().data@.skip(ptr.offset as int) =~= spec_encode(cmd@));
            assert forall|k: Seq<char>| #[trigger] self.store@.contains_key(k) implies ptr_valid(
                news,
                k,
                self.store@[k],
            ) by {
                if k == key@ {
                    assert(ptr_valid(news, k, ptr));
                } else {
                    assert(old(self).store@.contains_key(k));
                    lemma_ptr_stable(olds, news, spec_encode(cmd@), k, old(self).store@[k]);
                }
            }
            assert(self@ =~= old(self)@.insert(key@, value@)) by {
                assert forall|k: Seq<char>| #[trigger] self@.contains_key(k) implies self@[k]
                    == old(self)@.insert(key@, value@)[k] by {
                    if k == key@ {
                        assert(stored_value(news, ptr) == value@);
                    } else {
                        lemma_ptr_stable(olds, news, spec_encode(cmd@), k, old(self).store@[k]);
                    }
                }
            }
            if old(self).accounted() {
                let oldents = old(self).store.entries@;
                let newents = self.store.entries@;
                let newentry = IndexEntry { key: key, ptr: ptr };
                assert(sizes_of(oldents, news) =~= sizes_of(oldents, olds)) by {
                    assert forall|i: int| 0 <= i < oldents.len() implies sizes_of(oldents, news)[i]
                        == sizes_of(oldents, olds)[i] by {
                        lemma_entries_map_value(oldents, i);
                        lemma_ptr_stable(
                            olds,
                            news,
                            spec_encode(cmd@),
                            oldents[i].key@,
                            oldents[i].ptr,
                        );
                    }
                }
                assert(stored_value(news, ptr) == value@);
                assert(entry_size(newentry, news) == spec_encode(cmd@).len());
                if old(self).store@.contains_key(key@) {
                    let j = choose|j: int|
                        0 <= j < oldents.len() && oldents[j].key@ == key@ && newents
                            == oldents.update(j, newentry);
                    assert(sizes_of(newents, news) =~= sizes_of(oldents, news).update(
                        j,
                        entry_size(newentry, news),
                    ));
                    lemma_sum_ints_update(
                        sizes_of(oldents, news),
                        j,
                        entry_size(newentry, news),
                    );
                    assert(sizes_of(oldents, news)[j] >= 0);
                } else {
                    assert(sizes_of(newents, news) =~= sizes_of(oldents, news).push(
                        entry_size(newentry, news),
                    ));
                    lemma_sum_ints_push(sizes_of(oldents, news), entry_size(newentry, news));
                }
                lemma_total_size_extended(olds, news, spec_encode(cmd@));
                assert(self.accounted());
            }
        }
        if prev {
            if self.redundant_commands < u64::MAX {
                self.redundant_commands = self.redundant_commands + 1;
            }
        }
        self.maybe_compact();
        Ok(())
    }

    /// Evict a key.  Present: a `Remove` record is appended, then the
    /// index entry is dropped.  Absent: the key-not-found error, with
    /// nothing changed.
    pub fn remove(&mut self, key: String) -> (r: Result<(), MyError>)
        requires
            old(self).wf(),
        ensures
            final(self).wf(),
            old(self)@.contains_key(key@) ==> r is Ok && final(self)@ == old(self)@.remove(key@),
            !old(self)@.contains_key(key@) ==> r == Err::<(), MyError>(MyError::KeyNotFound)
                && *final(self) == *old(self),
            old(self).accounted() ==> final(self).accounted(),
            ({
                // a successful removal always supersedes a record, so
                // the counter grows by one (saturating only at the
                // type's limit)
                let bumped: u64 = if old(self).redundant_commands < u64::MAX {
                    (old(self).redundant_commands + 1) as u64
                } else {
                    old(self).redundant_commands
                };
                old(self)@.contains_key(key@) ==> if bumped < REDUNDANT_COMMANDS_THRESHOLD
                    || old(self).active().generation == u64::MAX {
                    // below the threshold no compaction runs: the one
                    // change to the log is the appended `Remove`
                    // record, and the key leaves the index
                    &&& final(self).redundant_commands == bumped
                    &&& segs_extended(
                        old(self).segments@,
                        final(self).segments@,
                        spec_encode(CommandView::Remove { key: key@ }),
                    )
                    &&& final(self).active().generation == old(self).active().generation
                    &&& final(self).store@ == old(self).store@.remove(key@)
                } else {
                    &&& final(self).redundant_commands == 0
                    &&& final(self).segments@.len() == 1
                    &&& final(self).active().generation == old(self).active().generation + 1
                }
            }),
            old(self).redundant_commands < REDUNDANT_COMMANDS_THRESHOLD
                && old(self).active().generation < u64::MAX ==> final(self).redundant_commands
                < REDUNDANT_COMMANDS_THRESHOLD,
    {
        match self.store.lookup(&key) {
            None => Err(MyError::KeyNotFound),
            Some(_) => {
                let cmd = Command::Remove { key: key.clone() };
                let ptr = self.append_record(&cmd);
                let _ = self.store.remove(&key);
                proof {
                    let olds = old(self).segments@;
                    let news = self.segments@;
                    assert(apply_cmd(old(self).store@, cmd@, ptr.generation, ptr.offset as int)
                        =~= old(self).store@.remove(key@));
                    assert forall|k: Seq<char>| #[trigger] self.store@.contains_key(k) implies
                        ptr_valid(news, k, self.store@[k]) by {
                        assert(old(self).store@.contains_key(k));
                        lemma_ptr_stable(olds, news, spec_encode(cmd@), k, old(self).store@[k]);
                    }
                    assert(self@ =~= old(self)@.remove(key@)) by {
                        assert forall|k: Seq<char>| #[trigger] self@.contains_key(k) implies
                            self@[k] == old(self)@.remove(key@)[k] by {
                            lemma_ptr_stable(
                                olds,
                                news,
                                spec_encode(cmd@),
                                k,
                                old(self).store@[k],
                            );
                        }
                    }
                    if old(self).accounted() {
                        let oldents = old(self).store.entries@;
                        let newents = self.store.entries@;
                        assert(sizes_of(oldents, news) =~= sizes_of(oldents, olds)) by {
                            assert forall|i: int| 0 <= i < oldents.len() implies sizes_of(
                                oldents,
                                news,
                            )[i] == sizes_of(oldents, olds)[i] by {
                                lemma_entries_map_value(oldents, i);
                                lemma_ptr_stable(
                                    olds,
                                    news,
                                    spec_encode(cmd@),
                                    oldents[i].key@,
                                    oldents[i].ptr,
                                );
                            }
                        }
                        let j = choose|j: int|
                            0 <= j < oldents.len() && oldents[j].key@ == key@ && newents
                                == oldents.remove(j);
                        assert(sizes_of(newents, news) =~= sizes_of(oldents, news).remove(j));
                        lemma_sum_ints_remove(sizes_of(oldents, news), j);
                        assert(sizes_of(oldents, news)[j] >= 0);
                        lemma_total_size_extended(olds, news, spec_encode(cmd@));
                        assert(self.accounted());
                    }
                }
                if self.redundant_commands < u64::MAX {
                    self.redundant_commands = self.redundant_commands + 1;
                }
                self.maybe_compact();
                Ok(())
            },
        }
    }

    /// Rewrite the live records into a fresh segment, point the index
    /// at it, reset the redundant-record counter and retire every older
    /// segment.  What each key reads is unchanged.  The one input that
    /// fails is a store whose active generation number is already the
    /// largest representable one, so that no fresh generation exists:
    /// that reports resource exhaustion and changes nothing.
    pub fn compact(&mut self) -> (r: Result<(), MyError>)
        requires
            old(self).wf(),
        ensures
            final(self).wf(),
            final(self)@ == old(self)@,
            old(self).active().generation < u64::MAX ==> r is Ok && final(self).segments@.len()
                == 1 && final(self).active().generation == old(self).active().generation + 1
                && final(self).redundant_commands == 0,
            old(self).active().generation == u64::MAX ==> r == Err::<(), MyError>(MyError::IoError)
                && *final(self) == *old(self),
            old(self).active().generation < u64::MAX ==> final(self).accounted(),
            // the fresh segment holds exactly one record per live key —
            // its size is precisely what the live entries encode to
            old(self).active().generation < u64::MAX ==> total_size(final(self).segments@)
                == live_size(old(self).store.entries@, old(self).segments@),
            old(self).active().generation < u64::MAX && old(self).accounted() ==> total_size(
                final(self).segments@,
            ) <= total_size(old(self).segments@),
    {
        let last = self.segments.len() - 1;
        let active_gen = self.segments[last].generation;
        if active_gen == u64::MAX {
            return Err(MyError::IoError);
        }
        let new_gen = active_gen + 1;
        let mut new_data: Vec<u8> = Vec::new();
        let mut new_index = Index::new();
        let entries = self.store.iterate();
        let n = entries.len();
        let ghost olds = self.segments@;
        let mut i: usize = 0;
        while i < n
            invariant
                i <= n,
                n == entries@.len(),
                entries@ == old(self).store.entries@,
                *self == *old(self),
                olds == old(self).segments@,
                old(self).wf(),
                new_gen == old(self).active().generation + 1,
                new_index.wf(),
                seg_end(new_data@, 0) == Some(new_data@.len() as int),
                seg_replay(new_data@, new_gen, 0, Map::<Seq<char>, LogPointer>::empty())
                    == new_index@,
                forall|k: Seq<char>| #[trigger]
                    new_index@.contains_key(k) <==> (exists|j: int|
                        0 <= j < i && entries@[j].key@ == k),
                forall|k: Seq<char>| #[trigger]
                    new_index@.contains_key(k) ==> {
                        &&& new_index@[k].generation == new_gen
                        &&& new_index@[k].offset <= new_data@.len()
                        &&& decodes_put_for(new_data@, new_index@[k].offset as int, k)
                        &&& put_value_at(new_data@, new_index@[k].offset as int) == old(self)@[k]
                        &&& old(self)@.contains_key(k)
                    },
                new_index.entries@.len() == i as int,
                forall|j: int|
                    0 <= j < i ==> (#[trigger] new_index.entries@[j]).key@ == entries@[j].key@,
                new_data@.len() as int == sum_ints(sizes_in_of(new_index.entries@, new_data@)),
            decreases n - i,
        {
            let e = &entries[i];
            proof {
                lemma_entries_map_value(old(self).store.entries@, i as int);
                assert(old(self).store@.contains_key(e.key@));
                assert(old(self).store@[e.key@] == e.ptr);
                assert(ptr_valid(olds, e.key@, e.ptr));
            }
            match self.find_segment(e.ptr.generation) {
                None => {
                    proof {
                        assert(false);
                    }
                    return Err(MyError::CorruptIndex);
                },
                Some(si) => {
                    proof {
                        lemma_gen_index_unique(olds, si as int);
                    }
                    match decode_at(&self.segments[si].data, e.ptr.offset) {
                        DecodeOutcome::Record { cmd: Command::Put { key: _, value }, len: _ } => {
                            let off_new = new_data.len();
                            let cmd = Command::Put { key: e.key.clone(), value };
                            let enc = encode(&cmd);
                            let ghost data_before = new_data@;
                            let ghost index_before = new_index@;
                            let ghost ents_before = new_index.entries@;
                            proof {
                                lemma_encode_decode(cmd@, Seq::<u8>::empty());
                                assert(spec_encode(cmd@) + Seq::<u8>::empty() =~= spec_encode(
                                    cmd@,
                                ));
                                lemma_seg_extend(
                                    new_data@,
                                    spec_encode(cmd@),
                                    new_gen,
                                    0,
                                    Map::<Seq<char>, LogPointer>::empty(),
                                    cmd@,
                                );
                            }
                            push_bytes(&mut new_data, enc.as_slice());
                            new_index.upsert(
                                e.key.clone(),
                                LogPointer { generation: new_gen, offset: off_new },
                            );
                            proof {
                                assert(new_data@ == data_before + spec_encode(cmd@));
                                assert(new_index@ =~= apply_cmd(
                                    index_before,
                                    cmd@,
                                    new_gen,
                                    off_new as int,
                                ));
                                assert(new_data@.skip(off_new as int) =~= spec_encode(cmd@));
                                assert(put_value_at(new_data@, off_new as int) == stored_value(
                                    olds,
                                    e.ptr,
                                ));
                                assert forall|k: Seq<char>| #[trigger]
                                    new_index@.contains_key(k) implies {
                                    &&& new_index@[k].generation == new_gen
                                    &&& new_index@[k].offset <= new_data@.len()
                                    &&& decodes_put_for(new_data@, new_index@[k].offset as int, k)
                                    &&& put_value_at(new_data@, new_index@[k].offset as int)
                                        == old(self)@[k]
                                    &&& old(self)@.contains_key(k)
                                } by {
                                    if k != e.key@ {
                                        assert(index_before.contains_key(k));
                                        let p = index_before[k];
                                        assert(new_data@.skip(p.offset as int) =~= data_before.skip(
                                            p.offset as int,
                                        ) + spec_encode(cmd@));
                                        lemma_decode_prefix_stable(
                                            data_before.skip(p.offset as int),
                                            spec_encode(cmd@),
                                        );
                                    }
                                }
                                assert forall|k: Seq<char>| #[trigger]
                                    new_index@.contains_key(k) <==> (exists|j: int|
                                        0 <= j < i + 1 && entries@[j].key@ == k) by {
                                    if new_index@.contains_key(k) {
                                        if k == e.key@ {
                                            assert(entries@[i as int].key@ == k);
                                        }
                                    }
                                    if exists|j: int| 0 <= j < i + 1 && entries@[j].key@ == k {
                                        let j = choose|j: int|
                                            0 <= j < i + 1 && entries@[j].key@ == k;
                                        if j < i {
                                            assert(index_before.contains_key(k));
                                        }
                                    }
                                }
                                // the key is fresh in the new index, so the
                                // entry was appended, and earlier measures
                                // survive the append
                                assert(!index_before.contains_key(e.key@)) by {
                                    if index_before.contains_key(e.key@) {
                                        let j = choose|j: int|
                                            0 <= j < i && entries@[j].key@ == e.key@;
                                        assert(entries@[j].key@ == entries@[i as int].key@);
                                        assert(false);
                                    }
                                }
                                let newents2 = new_index.entries@;
                                assert(newents2 == ents_before.push(newents2.last()));
                                assert(newents2.last().key@ == e.key@);
                                assert(newents2.last().ptr == (LogPointer {
                                    generation: new_gen,
                                    offset: off_new,
                                }));
                                let szs_before = sizes_in_of(ents_before, data_before);
                                let szs_stable = sizes_in_of(ents_before, new_data@);
                                assert(szs_stable =~= szs_before) by {
                                    assert forall|j: int| 0 <= j < ents_before.len() implies
                                        szs_stable[j] == szs_before[j] by {
                                        lemma_entries_map_value(ents_before, j);
                                        let p = ents_before[j].ptr;
                                        assert(decodes_put_for(
                                            data_before,
                                            p.offset as int,
                                            ents_before[j].key@,
                                        ));
                                        assert(new_data@.skip(p.offset as int) =~= data_before.skip(
                                            p.offset as int,
                                        ) + spec_encode(cmd@));
                                        lemma_decode_prefix_stable(
                                            data_before.skip(p.offset as int),
                                            spec_encode(cmd@),
                                        );
                                    }
                                }
                                assert(sizes_in_of(newents2, new_data@) =~= szs_stable.push(
                                    entry_size_in(newents2.last(), new_data@),
                                ));
                                assert(put_value_at(new_data@, off_new as int) == value@);
                                assert(entry_size_in(newents2.last(), new_data@) == spec_encode(
                                    cmd@,
                                ).len());
                                lemma_sum_ints_push(
                                    szs_stable,
                                    entry_size_in(newents2.last(), new_data@),
                                );
                                assert forall|j: int| 0 <= j < i + 1 implies (#[trigger] newents2[
                                    j
                                ]).key@ == entries@[j].key@ by {
                                    if j < i {
                                        assert(newents2[j] == ents_before[j]);
                                    } else {
                                        assert(newents2[j] == newents2.last());
                                    }
                                }
                            }
                        },
                        _ => {
                            proof {
                                assert(false);
                            }
                            return Err(MyError::CorruptIndex);
                        },
                    }
                },
            }
            i = i + 1;
        }
        let mut new_segments: Vec<Segment> = Vec::new();
        new_segments.push(Segment { generation: new_gen, data: new_data });
        self.segments = new_segments;
        self.store = new_index;
        self.redundant_commands = 0;
        proof {
            let segs = self.segments@;
            assert forall|k: Seq<char>| #[trigger] self.store@.contains_key(k) implies old(
                self,
            ).store@.contains_key(k) by {
                lemma_entries_map_contains(old(self).store.entries@, k);
            }
            assert forall|k: Seq<char>| #[trigger] old(self).store@.contains_key(k) implies
                self.store@.contains_key(k) by {
                lemma_entries_map_contains(old(self).store.entries@, k);
            }
            lemma_gen_index_unique(segs, 0);
            assert forall|k: Seq<char>| #[trigger] self.store@.contains_key(k) implies ptr_valid(
                segs,
                k,
                self.store@[k],
            ) by {
                assert(segs[0].data@ == segs.last().data@);
            }
            assert(log_replay(segs, 1, self.store@) == Some(self.store@));
            assert(log_replay(segs, 0, Map::empty()) == Some(self.store@));
            assert(self@ =~= old(self)@);
            // the rewritten log holds exactly one record per live key
            let final_data = segs[0].data@;
            let fents = self.store.entries@;
            assert(total_size(segs) == final_data.len()) by {
                assert(segs.drop_last() =~= Seq::<Segment>::empty());
                assert(total_size(Seq::<Segment>::empty()) == 0);
            }
            assert(sizes_of(fents, segs) =~= sizes_in_of(fents, final_data)) by {
                assert forall|j: int| 0 <= j < fents.len() implies sizes_of(fents, segs)[j]
                    == sizes_in_of(fents, final_data)[j] by {
                    lemma_entries_map_value(fents, j);
                }
            }
            assert(self.accounted());
            let oldents = old(self).store.entries@;
            assert(sizes_in_of(fents, final_data) =~= sizes_of(oldents, olds)) by {
                assert forall|j: int| 0 <= j < fents.len() implies sizes_in_of(fents, final_data)[j]
                    == sizes_of(oldents, olds)[j] by {
                    lemma_entries_map_value(fents, j);
                    lemma_entries_map_value(oldents, j);
                }
            }
            assert(total_size(segs) == live_size(oldents, olds));
        }
        Ok(())
    }

    /// Compact once enough superseded records have piled up.  On the
    /// (practically unreachable) largest generation number compaction
    /// is skipped rather than failed, so mutations always succeed.
    fn maybe_compact(&mut self)
        requires
            old(self).wf(),
        ensures
            final(self).wf(),
            final(self)@ == old(self)@,
            old(self).accounted() ==> final(self).accounted(),
            old(self).redundant_commands < REDUNDANT_COMMANDS_THRESHOLD
                || old(self).active().generation == u64::MAX ==> *final(self) == *old(self),
            old(self).redundant_commands >= REDUNDANT_COMMANDS_THRESHOLD
                && old(self).active().generation < u64::MAX ==> final(self).redundant_commands == 0
                && final(self).segments@.len() == 1 && final(self).active().generation
                == old(self).active().generation + 1,
    {
        if self.redundant_commands >= REDUNDANT_COMMANDS_THRESHOLD {
            let last = self.segments.len() - 1;
            if self.segments[last].generation < u64::MAX {
                let _ = self.compact();
            }
        }
    }

    /// Replay one segment's records in order, applying each to the
    /// index exactly as a live write would have, and stopping just
    /// before the trailing incomplete record, if any.
    fn replay_segment(
        seg: &Segment,
        index: &mut Index,
        Ghost(segs): Ghost<Seq<Segment>>,
        Ghost(gi): Ghost<int>,
    ) -> (r: Result<usize, MyError>)
        requires
            old(index).wf(),
            gens_increasing(segs),
            0 <= gi < segs.len(),
            segs[gi] == *seg,
        ensures
            final(index).wf(),
            r matches Ok(end) ==> {
                &&& end <= seg.data@.len()
                &&& seg_end(seg.data@, 0) == Some(end as int)
                &&& final(index)@ == seg_replay(seg.data@, seg.generation, 0, old(index)@)
                &&& forall|k: Seq<char>| #[trigger]
                    final(index)@.contains_key(k) ==> (old(index)@.contains_key(k)
                        && final(index)@[k] == old(index)@[k]) || replayed_ptr_ok(
                        seg.data@,
                        final(index)@[k],
                        k,
                        seg.generation,
                        end as int,
                    )
                // every replayed record adds at most its own bytes to
                // what the live entries would re-encode to
                &&& live_size(final(index).entries@, segs) <= live_size(
                    old(index).entries@,
                    segs,
                ) + end
            },
            r is Err ==> r == Err::<usize, MyError>(MyError::MalformedRecord) && seg_end(
                seg.data@,
                0,
            ) is None,
    {
        let gen = seg.generation;
        let n = seg.data.len();
        let mut off: usize = 0;
        loop
            invariant
                off <= n,
                n == seg.data@.len(),
                gen == seg.generation,
                index.wf(),
                gens_increasing(segs),
                0 <= gi < segs.len(),
                segs[gi] == *seg,
                seg_end(seg.data@, 0) == seg_end(seg.data@, off as int),
                seg_replay(seg.data@, gen, 0, old(index)@) == seg_replay(
                    seg.data@,
                    gen,
                    off as int,
                    index@,
                ),
                forall|k: Seq<char>| #[trigger]
                    index@.contains_key(k) ==> (old(index)@.contains_key(k) && index@[k] == old(
                        index,
                    )@[k]) || replayed_ptr_ok(seg.data@, index@[k], k, gen, off as int),
                live_size(index.entries@, segs) <= live_size(old(index).entries@, segs) + off,
            decreases n - off,
        {
            match decode_at(&seg.data, off) {
                DecodeOutcome::Record { cmd, len } => {
                    let ghost cv = cmd@;
                    proof {
                        lemma_record_len(seg.data@.skip(off as int));
                        lemma_gen_index_unique(segs, gi);
                    }
                    let ghost index_before = index@;
                    let ghost ents_before = index.entries@;
                    match cmd {
                        Command::Put { key, value: _ } => {
                            index.upsert(key, LogPointer { generation: gen, offset: off });
                            proof {
                                let kv = key@;
                                let p = LogPointer { generation: gen, offset: off };
                                let ent = IndexEntry { key: key, ptr: p };
                                lemma_decode_encode_len(
                                    seg.data@.skip(off as int),
                                    cv,
                                    len as int,
                                );
                                assert(entry_size(ent, segs) == len as int) by {
                                    match cv {
                                        CommandView::Put { key: k0, value: v0 } => {
                                            assert(put_value_at(seg.data@, off as int) == v0);
                                            assert(stored_value(segs, p) == v0);
                                        },
                                        CommandView::Remove { .. } => {
                                            assert(false);
                                        },
                                    }
                                }
                                if index_before.contains_key(kv) {
                                    let j = choose|j: int|
                                        0 <= j < ents_before.len() && ents_before[j].key@ == kv
                                            && index.entries@ == ents_before.update(j, ent);
                                    assert(sizes_of(index.entries@, segs) =~= sizes_of(
                                        ents_before,
                                        segs,
                                    ).update(j, entry_size(ent, segs)));
                                    lemma_sum_ints_update(
                                        sizes_of(ents_before, segs),
                                        j,
                                        entry_size(ent, segs),
                                    );
                                    assert(sizes_of(ents_before, segs)[j] >= 0);
                                } else {
                                    assert(sizes_of(index.entries@, segs) =~= sizes_of(
                                        ents_before,
                                        segs,
                                    ).push(entry_size(ent, segs)));
                                    lemma_sum_ints_push(
                                        sizes_of(ents_before, segs),
                                        entry_size(ent, segs),
                                    );
                                }
                            }
                        },
                        Command::Remove { key } => {
                            let _ = index.remove(&key);
                            proof {
                                let kv = key@;
                                if index_before.contains_key(kv) {
                                    let j = choose|j: int|
                                        0 <= j < ents_before.len() && ents_before[j].key@ == kv
                                            && index.entries@ == ents_before.remove(j);
                                    assert(sizes_of(index.entries@, segs) =~= sizes_of(
                                        ents_before,
                                        segs,
                                    ).remove(j));
                                    lemma_sum_ints_remove(sizes_of(ents_before, segs), j);
                                    assert(sizes_of(ents_before, segs)[j] >= 0);
                                } else {
                                    assert(index.entries@ == ents_before);
                                }
                            }
                        },
                    }
                    proof {
                        assert(index@ == apply_cmd(index_before, cv, gen, off as int));
                    }
                    off = off + len;
                },
                DecodeOutcome::Incomplete => {
                    return Ok(off);
                },
                DecodeOutcome::Malformed => {
                    return Err(MyError::MalformedRecord);
                },
            }
        }
    }

    /// Bring an engine up on the segments read back from storage, in
    /// ascending generation order.  Every segment is replayed from
    /// offset 0 in order; a trailing incomplete record (a crash cut a
    /// write short) marks the end of that segment's log and is dropped,
    /// while a malformed record anywhere else is fatal.
    #[verifier::rlimit(50)]
    pub fn open(segments: Vec<Segment>) -> (r: Result<KvStore, MyError>)
        requires
            gens_increasing(segments@),
        ensures
            r matches Ok(s) ==> {
                &&& s.wf()
                &&& s.accounted()
                &&& log_replay(segments@, 0, Map::empty()) == Some(s.store@)
                &&& s.redundant_commands == 0
                &&& (segments@.len() == 0 ==> s@ == Map::<Seq<char>, Seq<char>>::empty()
                    && s.segments@.len() == 1 && s.active().generation == 0
                    && s.active().data@.len() == 0)
                &&& (segments@.len() > 0 ==> {
                    &&& s.segments@.len() == segments@.len()
                    &&& forall|i: int|
                        0 <= i < segments@.len() ==> (#[trigger] s.segments@[i]).generation
                            == segments@[i].generation && s.segments@[i].data@
                            == segments@[i].data@.take(clean_len(segments@[i].data@))
                })
            },
            r is Err ==> r == Err::<KvStore, MyError>(MyError::MalformedRecord) && (exists|i: int|
                0 <= i < segments@.len() && seg_end(#[trigger] segments@[i].data@, 0) is None),
    {
        let mut segs = segments;
        let n = segs.len();
        if n == 0 {
            return Ok(KvStore::new());
        }
        let ghost input = segs@;
        let mut index = Index::new();
        proof {
            assert(sizes_of(index.entries@, segs@) =~= Seq::<int>::empty());
            assert(sum_ints(Seq::<int>::empty()) == 0);
            assert(segs@.take(0) =~= Seq::<Segment>::empty());
            assert(total_size(Seq::<Segment>::empty()) == 0);
        }
        let mut i: usize = 0;
        while i < n
            invariant
                i <= n,
                n == segs@.len(),
                n == input.len(),
                n >= 1,
                input == segments@,
                gens_increasing(input),
                index.wf(),
                forall|j: int| i <= j < n ==> segs@[j] == input[j],
                forall|j: int|
                    0 <= j < i ==> (#[trigger] segs@[j]).generation == input[j].generation
                        && segs@[j].data@ == input[j].data@.take(clean_len(input[j].data@))
                        && seg_end(segs@[j].data@, 0) == Some(segs@[j].data@.len() as int),
                log_replay(input.take(i as int), 0, Map::empty()) == Some(index@),
                log_replay(segs@.take(i as int), 0, Map::empty()) == Some(index@),
                forall|k: Seq<char>| #[trigger]
                    index@.contains_key(k) ==> ptr_valid(segs@.take(i as int), k, index@[k]),
                live_size(index.entries@, segs@) <= total_size(segs@.take(i as int)),
            decreases n - i,
        {
            let ghost m_before = index@;
            let ghost ents0 = index.entries@;
            let ghost segs_before = segs@;
            proof {
                assert(gens_increasing(segs@)) by {
                    assert forall|a: int, b: int| 0 <= a < b < segs@.len() implies
                        segs@[a].generation < segs@[b].generation by {
                        assert(segs@[a].generation == input[a].generation);
                        assert(segs@[b].generation == input[b].generation);
                    }
                }
            }
            let end = match Self::replay_segment(
                &segs[i],
                &mut index,
                Ghost(segs@),
                Ghost(i as int),
            ) {
                Ok(end) => end,
                Err(_) => {
                    proof {
                        assert(input == segments@);
                        assert(0 <= i < segments@.len() && seg_end(segments@[i as int].data@, 0)
                            is None);
                    }
                    return Err(MyError::MalformedRecord);
                },
            };
            let gen = segs[i].generation;
            proof {
                lemma_seg_take(input[i as int].data@, gen, 0, m_before, end as int);
            }
            if end < segs[i].data.len() {
                let truncated = slice_to_vec(slice_subrange(segs[i].data.as_slice(), 0, end));
                segs.set(i, Segment { generation: gen, data: truncated });
            }
            proof {
                let ii = i as int;
                assert(segs@[ii].data@ =~= input[ii].data@.take(end as int));
                assert(clean_len(input[ii].data@) == end as int);
                // replay over the input prefix grows by this segment
                lemma_log_replay_snoc(input.take(ii + 1), 0, Map::empty());
                assert(input.take(ii + 1).drop_last() =~= input.take(ii));
                assert(input.take(ii + 1).last() == input[ii]);
                // replay over the truncated prefix grows the same way
                lemma_log_replay_snoc(segs@.take(ii + 1), 0, Map::empty());
                assert(segs@.take(ii + 1).drop_last() =~= segs_before.take(ii));
                assert(segs@.take(ii + 1).last() == segs@[ii]);
                // pointers: old ones survive the longer prefix, new ones
                // land inside the truncated segment
                assert(gens_increasing(segs@.take(ii + 1))) by {
                    let pre = segs@.take(ii + 1);
                    assert forall|a: int, b: int| 0 <= a < b < pre.len() implies #[trigger] pre[a].generation
                        < #[trigger] pre[b].generation by {
                        assert(segs@[a].generation == input[a].generation);
                        assert(segs@[b].generation == input[b].generation);
                    }
                }
                assert forall|k: Seq<char>| #[trigger] index@.contains_key(k) implies ptr_valid(
                    segs@.take(ii + 1),
                    k,
                    index@[k],
                ) by {
                    let p = index@[k];
                    if m_before.contains_key(k) && p == m_before[k] {
                        assert(ptr_valid(segs_before.take(ii), k, p));
                        assert(segs_before.take(ii) =~= segs@.take(ii));
                        assert(segs@.take(ii).push(segs@[ii]) =~= segs@.take(ii + 1));
                        lemma_ptr_valid_push(segs@.take(ii), segs@[ii], k, p);
                    } else {
                        assert(replayed_ptr_ok(input[ii].data@, p, k, gen, end as int));
                        let data = input[ii].data@;
                        match spec_decode(data.skip(p.offset as int)) {
                            SpecDecodeOutcome::Record { cmd, len } => {
                                assert(segs@[ii].data@.skip(p.offset as int) =~= data.skip(
                                    p.offset as int,
                                ).take(end - p.offset));
                                lemma_decode_take(
                                    data.skip(p.offset as int),
                                    cmd,
                                    len,
                                    end - p.offset,
                                );
                                assert(segs@.take(ii + 1)[ii] == segs@[ii]);
                                lemma_gen_index_unique(segs@.take(ii + 1), ii);
                            },
                            _ => {
                                assert(false);
                            },
                        }
                    }
                }
                // the truncated prefix still pays for the live entries
                assert(gens_increasing(segs@)) by {
                    assert forall|a: int, b: int| 0 <= a < b < segs@.len() implies
                        segs@[a].generation < segs@[b].generation by {
                        assert(segs@[a].generation == input[a].generation);
                        assert(segs@[b].generation == input[b].generation);
                    }
                }
                let e1 = index.entries@;
                assert(sizes_of(e1, segs@) =~= sizes_of(e1, segs_before)) by {
                    assert forall|j: int| 0 <= j < e1.len() implies sizes_of(e1, segs@)[j]
                        == sizes_of(e1, segs_before)[j] by {
                        lemma_entries_map_value(e1, j);
                        let p = e1[j].ptr;
                        let k = e1[j].key@;
                        if m_before.contains_key(k) && index@[k] == m_before[k] {
                            assert(ptr_valid(segs_before.take(ii), k, p));
                            let j0 = gen_index(segs_before.take(ii), p.generation);
                            assert(segs_before.take(ii)[j0] == segs_before[j0]);
                            assert(segs@[j0] == segs_before[j0]);
                            lemma_gen_index_unique(segs_before, j0);
                            lemma_gen_index_unique(segs@, j0);
                        } else {
                            assert(replayed_ptr_ok(input[ii].data@, p, k, gen, end as int));
                            lemma_gen_index_unique(segs_before, ii);
                            lemma_gen_index_unique(segs@, ii);
                            let data = input[ii].data@;
                            match spec_decode(data.skip(p.offset as int)) {
                                SpecDecodeOutcome::Record { cmd, len } => {
                                    assert(segs@[ii].data@.skip(p.offset as int) =~= data.skip(
                                        p.offset as int,
                                    ).take(end - p.offset));
                                    lemma_decode_take(
                                        data.skip(p.offset as int),
                                        cmd,
                                        len,
                                        end - p.offset,
                                    );
                                },
                                _ => {
                                    assert(false);
                                },
                            }
                        }
                    }
                }
                assert(segs@.take(ii) =~= segs_before.take(ii));
                assert(total_size(segs@.take(ii + 1)) == total_size(segs_before.take(ii))
                    + end as int) by {
                    assert(segs@.take(ii + 1).drop_last() =~= segs_before.take(ii));
                    assert(segs@.take(ii + 1).last() == segs@[ii]);
                    assert(segs@[ii].data@.len() == end as int);
                }
                assert(live_size(index.entries@, segs@) <= total_size(segs@.take(ii + 1)));
            }
            i = i + 1;
        }
        let r = KvStore { store: index, segments: segs, redundant_commands: 0 };
        proof {
            assert(r.segments@.take(n as int) =~= r.segments@);
            assert(input.take(n as int) =~= input);
            assert(gens_increasing(r.segments@)) by {
                assert forall|a: int, b: int| 0 <= a < b < n implies r.segments@[a].generation
                    < r.segments@[b].generation by {
                    assert(r.segments@[a].generation == input[a].generation);
                    assert(r.segments@[b].generation == input[b].generation);
                }
            }
            assert(total_size(r.segments@) == total_size(r.segments@.take(n as int)));
            assert(r.accounted());
        }
        Ok(r)
    }

    /// Hand the segments back and shut the engine down.  Opening a new
    /// engine on exactly these segments reproduces every lookup.
    pub fn into_segments(self) -> (r: Vec<Segment>)
        ensures
            r == self.segments,
    {
        self.segments
    }

    /// Look a key up.  An index miss is `Ok(None)`.  An index hit reads
    /// the pointed-to record: under the engine's invariant that record
    /// is always the matching `Put`.  An index that points at anything
    /// else — a missing generation, an offset past the log, a `Remove`,
    /// undecodable bytes, or another key's record — is corruption and
    /// is reported as such, never conflated with an absent key.
    pub fn get(&self, key: String) -> (r: Result<Option<String>, MyError>)
        requires
            self.store.wf(),
            gens_increasing(self.segments@),
        ensures
            !self.store@.contains_key(key@) ==> r == Ok::<Option<String>, MyError>(None),
            self.store@.contains_key(key@) ==> (if ptr_valid(
                self.segments@,
                key@,
                self.store@[key@],
            ) {
                r matches Ok(v) && v matches Some(s) && s@ == stored_value(
                    self.segments@,
                    self.store@[key@],
                )
            } else {
                r == Err::<Option<String>, MyError>(MyError::CorruptIndex)
            }),
            self.wf() ==> r is Ok,
            self.wf() && self@.contains_key(key@) ==> (r matches Ok(v) && v matches Some(s) && s@
                == self@[key@]),
    {
        match self.store.lookup(&key) {
            None => Ok(None),
            Some(p) => {
                match self.find_segment(p.generation) {
                    None => Err(MyError::CorruptIndex),
                    Some(si) => {
                        proof {
                            lemma_gen_index_unique(self.segments@, si as int);
                        }
                        let seg = &self.segments[si];
                        if p.offset > seg.data.len() {
                            return Err(MyError::CorruptIndex);
                        }
                        match decode_at(&seg.data, p.offset) {
                            DecodeOutcome::Record { cmd: Command::Put { key: k2, value }, len: _ } => {
                                if k2 == key {
                                    Ok(Some(value))
                                } else {
                                    Err(MyError::CorruptIndex)
                                }
                            },
                            _ => Err(MyError::CorruptIndex),
                        }
                    },
                }
            },
        }
    }
}

/// After writing a key, reading it back yields the value just written,
/// whatever the prior state was.
pub proof fn lemma_set_then_get(m: Map<Seq<char>, Seq<char>>, k: Seq<char>, v: Seq<char>)
    ensures
        m.insert(k, v).contains_key(k),
        m.insert(k, v)[k] == v,
{
}

/// A second write to the same key overwrites the first.
pub proof fn lemma_overwrite(
    m: Map<Seq<char>, Seq<char>>,
    k: Seq<char>,
    v1: Seq<char>,
    v2: Seq<char>,
)
    ensures
        m.insert(k, v1).insert(k, v2).contains_key(k),
        m.insert(k, v1).insert(k, v2)[k] == v2,
{
}

/// Writing a key and then removing it leaves the key absent.
pub proof fn lemma_set_then_remove(m: Map<Seq<char>, Seq<char>>, k: Seq<char>, v: Seq<char>)
    ensures
        !m.insert(k, v).remove(k).contains_key(k),
{
}

/// Replaying the engine's own segments from an empty index rebuilds the
/// engine's index exactly, and with it every lookup: closing the engine
/// and reopening it on the same segments loses nothing.
pub proof fn lemma_replay_reproduces_index(s: KvStore)
    requires
        s.wf(),
    ensures
        log_replay(s.segments@, 0, Map::empty()) == Some(s.store@),
        forall|i: int|
            0 <= i < s.segments@.len() ==> clean_len(#[trigger] s.segments@[i].data@)
                == s.segments@[i].data@.len(),
{
}

} // verus!
