use vstd::prelude::*;

use crate::command::{apply, apply_all, CommandView, KvsCommand};
use crate::error::KvsError;
use crate::index::{Index, IndexMeta};
use crate::log::{
    first_active_gen, lemma_log_records_append, lemma_log_records_empty_tail,
    lemma_log_records_frame, lemma_seg_records_append, lemma_seq_max_bound, lemma_sum_prefix,
    log_records, record_views, seg_records, seq_max, sum,
};

verus! {

/// Once the active segment holds more bytes than this, the store compacts.
pub const COMPACTION_THRESHOLD: u64 = 1048576;


/// `after` is `before` compacted: the records at `before`'s sources were
/// copied back to back, the `i`-th one `lens[i]` bytes long, into a new
/// archive segment one generation past the active one, and a new empty
/// active segment follows the archive. The contents are unchanged, the
/// archive and the new active segment are the only segments left, and
/// `doomed` lists the generations among `on_disk` older than the archive.
pub open spec fn compacted(
    before: KvStore,
    after: KvStore,
    lens: Seq<u64>,
    on_disk: Seq<u64>,
    doomed: Seq<u64>,
) -> bool {
    let archive = (before.active_gen() + 1) as u64;
    let active = (before.active_gen() + 2) as u64;
    &&& before.active_gen() <= u64::MAX - 2
    &&& after@ == before@
    &&& after.active_gen() == active
    &&& after.spec_cursor() == 0
    &&& after.replay_floor() == active
    &&& after.segments() == set![archive, active]
    &&& after.ends()[archive] == sum(lens)
    &&& seg_records(after.log()[archive], sum(lens)) == Seq::new(
        lens.len(),
        |i: int| before.log()[before.sources()[i].1.gen][before.sources()[i].1.pos],
    )
    &&& after.ends()[active] == 0
    &&& after.log()[active] == Map::<u64, CommandView>::empty()
    &&& after.sources().len() == before.sources().len()
    &&& lens.len() == before.sources().len()
    &&& forall|i: int|
        0 <= i < lens.len() ==> {
            let k = #[trigger] before.sources()[i].0@;
            let m = before.sources()[i].1;
            let to = after.locations()[k];
            &&& after.sources()[i].0@ == k
            &&& to.gen == archive
            &&& to.pos == sum(lens.take(i))
            &&& after.log()[archive][to.pos] == before.log()[m.gen][m.pos]
        }
    &&& forall|g: u64| doomed.contains(g) <==> on_disk.contains(g) && g < archive
}


/// The index after a record `c` found at `pos` in segment `gen` is replayed:
/// a `Put` points its key there, a `Remove` drops its key.
pub open spec fn relocate_by(
    locs: Map<Seq<char>, IndexMeta>,
    c: CommandView,
    gen: u64,
    pos: u64,
) -> Map<Seq<char>, IndexMeta> {
    match c {
        CommandView::Put(k, _) => locs.insert(k, IndexMeta { gen, pos }),
        CommandView::Remove(k) => locs.remove(k),
    }
}

/// The index after the records of segment `gen` are replayed in file order,
/// each at the offset that the lengths of the records before it add up to.
pub open spec fn replay_locations(
    locs: Map<Seq<char>, IndexMeta>,
    gen: u64,
    records: Seq<(KvsCommand, u64)>,
) -> Map<Seq<char>, IndexMeta>
    decreases records.len(),
{
    if records.len() == 0 {
        locs
    } else {
        let init = records.drop_last();
        relocate_by(
            replay_locations(locs, gen, init),
            records.last().0@,
            gen,
            sum(init.map_values(|e: (KvsCommand, u64)| e.1)) as u64,
        )
    }
}

/// The engine of a log-structured key-value store.
///
/// It keeps the index and the write cursor and decides where each record
/// goes; the segment files are read and written by its owner. Its ghost
/// state models the segments on disk: for each generation, the records it
/// holds by byte offset, and its length in bytes.
pub struct KvStore {
    index: Index,
    gen: u64,
    cursor: u64,
    replay_floor: u64,
    log: Ghost<Map<u64, Map<u64, CommandView>>>,
    ends: Ghost<Map<u64, nat>>,
    order: Ghost<Seq<u64>>,
    state: Ghost<Map<Seq<char>, Seq<char>>>,
}

impl View for KvStore {
    type V = Map<Seq<char>, Seq<char>>;

    /// The logical key→value mapping.
    closed spec fn view(&self) -> Map<Seq<char>, Seq<char>> {
        self.state@
    }
}

impl KvStore {
    /// The records on disk, by generation and byte offset.
    pub closed spec fn log(&self) -> Map<u64, Map<u64, CommandView>> {
        self.log@
    }

    /// The length in bytes of each segment.
    pub closed spec fn ends(&self) -> Map<u64, nat> {
        self.ends@
    }

    /// The generations of the segments, in ascending order: the order in
    /// which reopening replays them.
    pub closed spec fn segment_order(&self) -> Seq<u64> {
        self.order@
    }

    /// Every record of the segments, in replay order.
    pub open spec fn history(&self) -> Seq<CommandView> {
        log_records(self.log(), self.ends(), self.segment_order())
    }

    /// The generations of the segments that the store relies on.
    pub open spec fn segments(&self) -> Set<u64> {
        self.log().dom()
    }

    /// Where the index places each key.
    pub closed spec fn locations(&self) -> Map<Seq<char>, IndexMeta> {
        self.index@
    }

    /// The generation that new records are appended to.
    pub closed spec fn active_gen(&self) -> u64 {
        self.gen
    }

    /// The number of bytes written to the active segment.
    pub closed spec fn spec_cursor(&self) -> u64 {
        self.cursor
    }

    /// The smallest generation that may still be replayed.
    pub closed spec fn replay_floor(&self) -> u64 {
        self.replay_floor
    }

    /// The index entries, in the order that compaction rewrites them.
    pub closed spec fn sources(&self) -> Seq<(String, IndexMeta)> {
        self.index.entries()
    }

    pub closed spec fn wf(&self) -> bool {
        &&& self.index.wf()
        &&& self.log@.dom() == self.ends@.dom()
        &&& forall|g: u64, p: u64|
            self.log@.contains_key(g) && #[trigger] self.log@[g].contains_key(p) ==> p
                < self.ends@[g]
        &&& self.index@.dom() == self.state@.dom()
        &&& forall|k: Seq<char>|
            #[trigger] self.index@.contains_key(k) ==> {
                let m = self.index@[k];
                &&& self.log@.contains_key(m.gen)
                &&& self.log@[m.gen].contains_key(m.pos)
                &&& self.log@[m.gen][m.pos] == CommandView::Put(k, self.state@[k])
            }
        &&& self.log@.contains_key(self.gen)
        &&& self.ends@[self.gen] == self.cursor as nat
        &&& forall|g: u64| #[trigger] self.log@.contains_key(g) ==> g < self.replay_floor || g == self.gen
        &&& self.replay_floor <= self.gen
        &&& forall|g: u64| #[trigger] self.log@.contains_key(g) <==> self.order@.contains(g)
        &&& forall|i: int, j: int| 0 <= i < j < self.order@.len() ==> self.order@[i] < self.order@[j]
        &&& self.order@.len() > 0
        &&& self.order@.last() == self.gen
        &&& self.state@ == apply_all(Map::empty(), log_records(self.log@, self.ends@, self.order@))
    }

    /// What `wf` says of the segments: they are listed in ascending order,
    /// and their records replayed from an empty store give the contents.
    pub proof fn lemma_history(&self)
        requires
            self.wf(),
        ensures
            apply_all(Map::empty(), self.history()) == self@,
            forall|i: int, j: int|
                0 <= i < j < self.segment_order().len() ==> self.segment_order()[i]
                    < self.segment_order()[j],
            forall|g: u64| #[trigger] self.segments().contains(g) <==> self.segment_order().contains(g),
            self.segment_order().len() > 0,
            self.segment_order().last() == self.active_gen(),
    {
    }

    /// What the index promises: each key it holds leads to a `Put` record
    /// of that key and of the key's current value.
    pub proof fn lemma_locations(&self)
        requires
            self.wf(),
        ensures
            self.locations().dom() == self@.dom(),
            forall|k: Seq<char>|
                #[trigger] self.locations().contains_key(k) ==> {
                    let m = self.locations()[k];
                    &&& self.log().contains_key(m.gen)
                    &&& self.log()[m.gen].contains_key(m.pos)
                    &&& self.log()[m.gen][m.pos] == CommandView::Put(k, self@[k])
                },
    {
    }

    /// Sets up a store over the segments `found` that are already on disk.
    /// Its active generation is one past the newest of them (0 if there is
    /// none), and it holds no key until the segments are replayed.
    pub fn open(found: &Vec<u64>) -> (r: Result<KvStore, KvsError>)
        ensures
            (forall|i: int| 0 <= i < found@.len() ==> found@[i] < u64::MAX) <==> r is Ok,
            r is Err ==> r->Err_0 is Unexpected,
            r matches Ok(s) ==> {
                &&& s.wf()
                &&& s@ == Map::<Seq<char>, Seq<char>>::empty()
                &&& s.active_gen() == first_active_gen(found@)
                &&& s.spec_cursor() == 0
                &&& s.replay_floor() == 0
                &&& s.segments() == set![s.active_gen()]
                &&& s.ends()[s.active_gen()] == 0
                &&& s.log()[s.active_gen()] == Map::<u64, CommandView>::empty()
            },
    {
        let mut max: u64 = 0;
        let mut i: usize = 0;
        while i < found.len()
            invariant
                i <= found@.len(),
                max == seq_max(found@.take(i as int)),
                forall|j: int| 0 <= j < i ==> found@[j] < u64::MAX,
            decreases found@.len() - i,
        {
            if found[i] == u64::MAX {
                return Err(KvsError::Unexpected);
            }
            assert(found@.take(i as int + 1).drop_last() =~= found@.take(i as int));
            if found[i] > max {
                max = found[i];
            }
            i = i + 1;
        }
        assert(found@.take(i as int) =~= found@);
        let gen: u64 = if found.len() == 0 {
            0
        } else {
            proof {
                lemma_seq_max_bound(found@);
            }
            max + 1
        };
        let ghost log = Map::<u64, Map<u64, CommandView>>::empty().insert(gen, Map::empty());
        let ghost ends = Map::<u64, nat>::empty().insert(gen, 0nat);
        let ghost order = seq![gen];
        assert(log_records(log, ends, order) =~= Seq::<CommandView>::empty()) by {
            assert(order.drop_last() =~= Seq::<u64>::empty());
            assert(seg_records(log[gen], ends[gen]) =~= Seq::<CommandView>::empty());
            assert(log_records(log, ends, Seq::<u64>::empty()) =~= Seq::<CommandView>::empty());
        }
        let store = KvStore {
            index: Index::new(),
            gen,
            cursor: 0,
            replay_floor: 0,
            log: Ghost(log),
            ends: Ghost(ends),
            order: Ghost(order),
            state: Ghost(Map::empty()),
        };
        assert(store.log@.dom() =~= set![gen]);
        assert(store.ends@.dom() =~= set![gen]);
        assert(store.index@.dom() =~= store.state@.dom());
        Ok(store)
    }

    /// The generation that new records are appended to.
    pub fn gen(&self) -> (r: u64)
        ensures
            r == self.active_gen(),
    {
        self.gen
    }

    /// The number of bytes written to the active segment.
    pub fn cursor(&self) -> (r: u64)
        ensures
            r == self.spec_cursor(),
    {
        self.cursor
    }

    /// The number of keys that the store holds.
    pub fn len(&self) -> (r: usize)
        requires
            self.wf(),
        ensures
            r == self@.dom().len(),
    {
        self.index.len()
    }

    pub fn contains_key(&self, key: &String) -> (r: bool)
        requires
            self.wf(),
        ensures
            r == self@.contains_key(key@),
    {
        self.index.contains_key(key)
    }

    /// Appending a record to the active segment appends it to the history,
    /// and applies it to the contents.
    proof fn lemma_append_active(&self, c: CommandView, len: nat)
        requires
            self.wf(),
            0 < len,
            self.cursor + len <= u64::MAX,
        ensures
            log_records(
                self.log@.insert(self.gen, self.log@[self.gen].insert(self.cursor, c)),
                self.ends@.insert(self.gen, (self.cursor + len) as nat),
                self.order@,
            ) == log_records(self.log@, self.ends@, self.order@).push(c),
            apply_all(Map::empty(), log_records(self.log@, self.ends@, self.order@).push(c)) == apply(
                self.state@,
                c,
            ),
    {
        let h = log_records(self.log@, self.ends@, self.order@);
        assert forall|i: int| 0 <= i < self.order@.len() - 1 implies self.order@[i] != self.order@.last() by {
            assert(self.order@[i] < self.order@[self.order@.len() - 1]);
        }
        lemma_log_records_append(self.log@, self.ends@, self.order@, c, len);
        assert(h.push(c).drop_last() =~= h);
    }

    /// Records that a `Put` of `key` to `value`, `len` bytes long, was
    /// appended to the active segment at the cursor. Returns whether the
    /// active segment has now grown past the compaction threshold.
    pub fn set(&mut self, key: String, value: String, len: u64) -> (r: bool)
        requires
            old(self).wf(),
            0 < len,
            old(self).spec_cursor() + len <= u64::MAX,
        ensures
            final(self).wf(),
            final(self)@ == old(self)@.insert(key@, value@),
            final(self).log() == old(self).log().insert(
                old(self).active_gen(),
                old(self).log()[old(self).active_gen()].insert(
                    old(self).spec_cursor(),
                    CommandView::Put(key@, value@),
                ),
            ),
            final(self).locations() == old(self).locations().insert(
                key@,
                IndexMeta { gen: old(self).active_gen(), pos: old(self).spec_cursor() },
            ),
            final(self).active_gen() == old(self).active_gen(),
            final(self).replay_floor() == old(self).replay_floor(),
            final(self).spec_cursor() == old(self).spec_cursor() + len,
            final(self).ends() == old(self).ends().insert(
                old(self).active_gen(),
                (old(self).spec_cursor() + len) as nat,
            ),
            r == (final(self).spec_cursor() > COMPACTION_THRESHOLD),
    {
        let ghost k = key@;
        let ghost v = value@;
        proof {
            self.lemma_append_active(CommandView::Put(k, v), len as nat);
        }
        let meta = IndexMeta { gen: self.gen, pos: self.cursor };
        self.index.insert(key, meta);
        self.log = Ghost(self.log@.insert(self.gen, self.log@[self.gen].insert(self.cursor, CommandView::Put(k, v))));
        self.state = Ghost(self.state@.insert(k, v));
        self.cursor = self.cursor + len;
        self.ends = Ghost(self.ends@.insert(self.gen, self.cursor as nat));
        assert(self.log@.dom() =~= self.ends@.dom());
        assert(self.index@.dom() =~= self.state@.dom());
        self.cursor > COMPACTION_THRESHOLD
    }

    /// Records that a `Remove` of `key`, `len` bytes long, was appended to
    /// the active segment at the cursor, and returns whether the active
    /// segment has now grown past the compaction threshold. A key that the
    /// store does not hold is refused with `KeyNotFound`, and nothing
    /// changes; the record must then not be written, and `len` is not
    /// looked at.
    pub fn remove(&mut self, key: &String, len: u64) -> (r: Result<bool, KvsError>)
        requires
            old(self).wf(),
            old(self)@.contains_key(key@) ==> 0 < len && old(self).spec_cursor() + len <= u64::MAX,
        ensures
            final(self).wf(),
            r is Ok <==> old(self)@.contains_key(key@),
            r is Err ==> {
                &&& r->Err_0 is KeyNotFound
                &&& final(self)@ == old(self)@
                &&& final(self).log() == old(self).log()
                &&& final(self).ends() == old(self).ends()
                &&& final(self).locations() == old(self).locations()
                &&& final(self).spec_cursor() == old(self).spec_cursor()
            },
            r is Ok ==> {
                &&& final(self)@ == old(self)@.remove(key@)
                &&& final(self).log() == old(self).log().insert(
                    old(self).active_gen(),
                    old(self).log()[old(self).active_gen()].insert(
                        old(self).spec_cursor(),
                        CommandView::Remove(key@),
                    ),
                )
                &&& final(self).locations() == old(self).locations().remove(key@)
                &&& final(self).spec_cursor() == old(self).spec_cursor() + len
                &&& final(self).ends() == old(self).ends().insert(
                    old(self).active_gen(),
                    (old(self).spec_cursor() + len) as nat,
                )
                &&& r->Ok_0 == (final(self).spec_cursor() > COMPACTION_THRESHOLD)
            },
            final(self).active_gen() == old(self).active_gen(),
            final(self).replay_floor() == old(self).replay_floor(),
    {
        if !self.index.contains_key(key) {
            return Err(KvsError::KeyNotFound);
        }
        let ghost k = key@;
        proof {
            self.lemma_append_active(CommandView::Remove(k), len as nat);
        }
        self.index.remove(key);
        self.log = Ghost(self.log@.insert(self.gen, self.log@[self.gen].insert(self.cursor, CommandView::Remove(k))));
        self.state = Ghost(self.state@.remove(k));
        self.cursor = self.cursor + len;
        self.ends = Ghost(self.ends@.insert(self.gen, self.cursor as nat));
        assert(self.log@.dom() =~= self.ends@.dom());
        assert(self.index@.dom() =~= self.state@.dom());
        Ok(self.cursor > COMPACTION_THRESHOLD)
    }

    /// Where the latest `Put` record of `key` is, or `None` where the store
    /// does not hold the key.
    pub fn get(&self, key: &String) -> (r: Option<IndexMeta>)
        requires
            self.wf(),
        ensures
            r is Some <==> self@.contains_key(key@),
            r matches Some(m) ==> {
                &&& m == self.locations()[key@]
                &&& self.log().contains_key(m.gen)
                &&& self.log()[m.gen].contains_key(m.pos)
                &&& self.log()[m.gen][m.pos] == CommandView::Put(key@, self@[key@])
            },
    {
        self.index.get(key)
    }

    /// Applies one replayed record, found at `pos` in segment `g`.
    fn replay_record(&mut self, g: u64, pos: u64, cmd: &KvsCommand, len: u64)
        requires
            old(self).wf(),
            old(self).log().contains_key(g),
            old(self).ends()[g] == pos as nat,
            g != old(self).active_gen(),
            old(self).spec_cursor() == 0,
            old(self).segment_order().len() >= 2,
            old(self).segment_order()[old(self).segment_order().len() - 2] == g,
            0 < len,
            pos + len <= u64::MAX,
        ensures
            final(self).segment_order() == old(self).segment_order(),
            final(self).wf(),
            final(self)@ == apply(old(self)@, cmd@),
            final(self).log() == old(self).log().insert(g, old(self).log()[g].insert(pos, cmd@)),
            final(self).ends() == old(self).ends().insert(g, (pos + len) as nat),
            final(self).locations() == relocate_by(old(self).locations(), cmd@, g, pos),
            final(self).active_gen() == old(self).active_gen(),
            final(self).spec_cursor() == old(self).spec_cursor(),
            final(self).replay_floor() == old(self).replay_floor(),
    {
        proof {
            let order = self.order@;
            let inner = order.drop_last();
            let c = cmd@;
            assert(order =~= inner.push(self.gen));
            assert forall|i: int| 0 <= i < inner.len() - 1 implies inner[i] != inner.last() by {
                assert(order[i] < order[order.len() - 2]);
            }
            lemma_log_records_append(self.log@, self.ends@, inner, c, len as nat);
            let log2 = self.log@.insert(g, self.log@[g].insert(pos, c));
            let ends2 = self.ends@.insert(g, (pos + len) as nat);
            lemma_log_records_empty_tail(self.log@, self.ends@, inner, self.gen);
            lemma_log_records_empty_tail(log2, ends2, inner, self.gen);
            let h = log_records(self.log@, self.ends@, order);
            assert(h.push(c).drop_last() =~= h);
        }
        match cmd {
            KvsCommand::Put(key, value) => {
                self.index.insert(key.clone(), IndexMeta { gen: g, pos });
                self.state = Ghost(self.state@.insert(key@, value@));
            },
            KvsCommand::Remove(key) => {
                self.index.remove(key);
                self.state = Ghost(self.state@.remove(key@));
            },
        }
        self.log = Ghost(self.log@.insert(g, self.log@[g].insert(pos, cmd@)));
        self.ends = Ghost(self.ends@.insert(g, (pos + len) as nat));
        assert(self.log@.dom() =~= self.ends@.dom());
        assert(self.index@.dom() =~= self.state@.dom());
    }

    /// Replays the segment of generation `gen`: its records in file order,
    /// each with its encoded length in bytes. A `Put` points its key at the
    /// record; a `Remove` drops its key. Segments are replayed in ascending
    /// generation order, each older than the active one, before anything is
    /// written to the active segment; a segment out of that order, a replay
    /// after a write, an empty record, or a segment longer than `u64::MAX`
    /// bytes is refused with `Unexpected`, and nothing changes.
    pub fn replay(&mut self, gen: u64, records: &Vec<(KvsCommand, u64)>) -> (r: Result<(), KvsError>)
        requires
            old(self).wf(),
        ensures
            final(self).wf(),
            r is Ok <==> {
                &&& old(self).spec_cursor() == 0
                &&& old(self).replay_floor() <= gen < old(self).active_gen()
                &&& forall|i: int| 0 <= i < records@.len() ==> #[trigger] records@[i].1 > 0
                &&& sum(records@.map_values(|e: (KvsCommand, u64)| e.1)) <= u64::MAX
            },
            r is Err ==> {
                &&& r->Err_0 is Unexpected
                &&& final(self)@ == old(self)@
                &&& final(self).log() == old(self).log()
                &&& final(self).locations() == old(self).locations()
                &&& final(self).replay_floor() == old(self).replay_floor()
            },
            r is Ok ==> {
                &&& final(self)@ == apply_all(old(self)@, record_views(records@))
                &&& final(self).locations() == replay_locations(old(self).locations(), gen, records@)
                &&& seg_records(final(self).log()[gen], final(self).ends()[gen]) == record_views(records@)
                &&& final(self).segments() == old(self).segments().insert(gen)
                &&& final(self).ends()[gen] == sum(records@.map_values(|e: (KvsCommand, u64)| e.1))
                &&& final(self).replay_floor() == gen + 1
            },
            final(self).active_gen() == old(self).active_gen(),
            final(self).spec_cursor() == old(self).spec_cursor(),
    {
        let ghost lens = records@.map_values(|e: (KvsCommand, u64)| e.1);
        let ghost views = record_views(records@);
        if self.cursor != 0 || gen < self.replay_floor || gen >= self.gen {
            return Err(KvsError::Unexpected);
        }
        let mut total: u64 = 0;
        let mut i: usize = 0;
        while i < records.len()
            invariant
                i <= records@.len(),
                lens == records@.map_values(|e: (KvsCommand, u64)| e.1),
                total == sum(lens.take(i as int)),
                forall|j: int| 0 <= j < i ==> #[trigger] records@[j].1 > 0,
                self.wf(),
                self.state == old(self).state,
                self.index@ == old(self).index@,
                self.log == old(self).log,
                self.replay_floor == old(self).replay_floor,
                self.gen == old(self).gen,
                self.cursor == old(self).cursor,
            decreases records@.len() - i,
        {
            assert(lens.take(i as int + 1).drop_last() =~= lens.take(i as int));
            let len = records[i].1;
            assert(lens[i as int] == len);
            if len == 0 || len > u64::MAX - total {
                proof {
                    if len != 0 {
                        lemma_sum_prefix(lens, i as int + 1, lens.len() as int);
                        assert(lens.take(lens.len() as int) =~= lens);
                    }
                }
                return Err(KvsError::Unexpected);
            }
            total = total + len;
            i = i + 1;
        }
        assert(lens.take(i as int) =~= lens);
        let ghost prefix = self.order@.drop_last();
        let ghost order = prefix.push(gen).push(self.gen);
        proof {
            assert(self.order@ =~= prefix.push(self.gen));
            assert forall|j: int| 0 <= j < prefix.len() implies #[trigger] prefix[j] < gen by {
                assert(self.log@.contains_key(prefix[j]));
                assert(self.order@[j] < self.order@[self.order@.len() - 1]);
            }
            assert(!self.log@.contains_key(gen));
            let log2 = self.log@.insert(gen, Map::empty());
            let ends2 = self.ends@.insert(gen, 0nat);
            assert forall|j: int| 0 <= j < prefix.len() implies log2[#[trigger] prefix[j]] == self.log@[prefix[j]]
                && ends2[prefix[j]] == self.ends@[prefix[j]] by {}
            lemma_log_records_frame(log2, ends2, self.log@, self.ends@, prefix);
            lemma_log_records_empty_tail(self.log@, self.ends@, prefix, self.gen);
            lemma_log_records_empty_tail(log2, ends2, prefix, gen);
            lemma_log_records_empty_tail(log2, ends2, prefix.push(gen), self.gen);
            assert forall|g: u64| #[trigger] log2.contains_key(g) <==> order.contains(g) by {
                if order.contains(g) && g != gen && g != self.gen {
                    let j = choose|j: int| 0 <= j < order.len() && order[j] == g;
                    assert(prefix[j] == g);
                    assert(self.order@[j] == g);
                }
                if log2.contains_key(g) && g != gen && g != self.gen {
                    assert(self.order@.contains(g));
                    let j = choose|j: int| 0 <= j < self.order@.len() && self.order@[j] == g;
                    assert(order[j] == g);
                }
                if g == self.gen {
                    assert(order[order.len() - 1] == g);
                }
                if g == gen {
                    assert(order[order.len() - 2] == g);
                }
            }
        }
        self.replay_floor = gen + 1;
        self.log = Ghost(self.log@.insert(gen, Map::empty()));
        self.ends = Ghost(self.ends@.insert(gen, 0nat));
        self.order = Ghost(order);
        assert(self.log@.dom() =~= self.ends@.dom());
        assert(views.take(0) =~= Seq::<CommandView>::empty());
        let ghost start = self.state@;
        let ghost log0 = self.log@;
        let ghost loc0 = self.index@;
        assert(seg_records(self.log@[gen], 0) =~= views.take(0));
        assert(records@.take(0) =~= Seq::<(KvsCommand, u64)>::empty());
        let mut pos: u64 = 0;
        let mut i: usize = 0;
        while i < records.len()
            invariant
                self.wf(),
                i <= records@.len(),
                lens == records@.map_values(|e: (KvsCommand, u64)| e.1),
                views == record_views(records@),
                total == sum(lens),
                forall|j: int| 0 <= j < records@.len() ==> #[trigger] records@[j].1 > 0,
                pos == sum(lens.take(i as int)),
                self.state@ == apply_all(start, views.take(i as int)),
                self.index@ == replay_locations(loc0, gen, records@.take(i as int)),
                loc0 == old(self).index@,
                seg_records(self.log@[gen], pos as nat) == views.take(i as int),
                self.log@.dom() == log0.dom(),
                self.log@.contains_key(gen),
                self.ends@[gen] == pos as nat,
                self.gen == old(self).gen,
                self.cursor == old(self).cursor,
                self.replay_floor == gen + 1,
                gen < self.gen,
                self.order@ == order,
                self.cursor == 0,
                order.len() >= 2,
                order[order.len() - 2] == gen,
            decreases records@.len() - i,
        {
            proof {
                lemma_sum_prefix(lens, i as int + 1, lens.len() as int);
                assert(lens.take(i as int + 1).drop_last() =~= lens.take(i as int));
                assert(lens.take(lens.len() as int) =~= lens);
                assert(views.take(i as int + 1).drop_last() =~= views.take(i as int));
                assert(views.take(i as int + 1) =~= views.take(i as int).push(records@[i as int].0@));
                assert(records@.take(i as int + 1).drop_last() =~= records@.take(i as int));
                assert(records@.take(i as int).map_values(|e: (KvsCommand, u64)| e.1) =~= lens.take(i as int));
                lemma_seg_records_append(self.log@[gen], pos as nat, records@[i as int].0@, records@[i as int].1 as nat);
            }
            let len = records[i].1;
            self.replay_record(gen, pos, &records[i].0, len);
            pos = pos + len;
            i = i + 1;
        }
        assert(views.take(i as int) =~= views);
        assert(lens.take(i as int) =~= lens);
        assert(records@.take(i as int) =~= records@);
        assert(self.log@.dom() =~= old(self).log@.dom().insert(gen));
        Ok(())
    }

    /// What `sources` lists: each key of the store once, with the location
    /// of its latest `Put` record.
    pub proof fn lemma_sources(&self)
        requires
            self.wf(),
        ensures
            self.sources().len() == self@.dom().len(),
            forall|i: int, j: int|
                0 <= i < j < self.sources().len() ==> self.sources()[i].0@ != self.sources()[j].0@,
            forall|k: Seq<char>|
                #[trigger] self@.contains_key(k) ==> exists|i: int|
                    0 <= i < self.sources().len() && self.sources()[i].0@ == k,
            forall|i: int|
                0 <= i < self.sources().len() ==> {
                    let k = #[trigger] self.sources()[i].0@;
                    let m = self.sources()[i].1;
                    &&& self@.contains_key(k)
                    &&& self.locations()[k] == m
                    &&& self.log().contains_key(m.gen)
                    &&& self.log()[m.gen].contains_key(m.pos)
                    &&& self.log()[m.gen][m.pos] == CommandView::Put(k, self@[k])
                },
    {
        self.index.lemma_entries();
        assert forall|i: int| 0 <= i < self.sources().len() implies {
            let k = #[trigger] self.sources()[i].0@;
            let m = self.sources()[i].1;
            &&& self@.contains_key(k)
            &&& self.locations()[k] == m
            &&& self.log().contains_key(m.gen)
            &&& self.log()[m.gen].contains_key(m.pos)
            &&& self.log()[m.gen][m.pos] == CommandView::Put(k, self@[k])
        } by {
            assert(self.index@.contains_key(self.index.entries()[i].0@));
        }
    }

    /// The generations that the next compaction writes: the archive, which
    /// receives the live records, and the new active segment. `Unexpected`
    /// where the generation numbers are used up.
    pub fn compaction_gens(&self) -> (r: Result<(u64, u64), KvsError>)
        ensures
            r is Ok <==> self.active_gen() <= u64::MAX - 2,
            r matches Ok((a, b)) ==> a == self.active_gen() + 1 && b == self.active_gen() + 2,
            r is Err ==> r->Err_0 is Unexpected,
    {
        if self.gen > u64::MAX - 2 {
            Err(KvsError::Unexpected)
        } else {
            Ok((self.gen + 1, self.gen + 2))
        }
    }

    /// The locations of the records that compaction copies into the
    /// archive, in the order it copies them.
    pub fn compaction_sources(&self) -> (r: Vec<IndexMeta>)
        requires
            self.wf(),
        ensures
            r@.len() == self.sources().len(),
            forall|i: int| 0 <= i < r@.len() ==> r@[i] == #[trigger] self.sources()[i].1,
    {
        let mut r: Vec<IndexMeta> = Vec::new();
        let n = self.index.len();
        proof {
            self.index.lemma_entries();
        }
        let mut i: usize = 0;
        while i < n
            invariant
                self.wf(),
                n == self.sources().len(),
                i <= n,
                r@.len() == i,
                forall|j: int| 0 <= j < i ==> r@[j] == #[trigger] self.sources()[j].1,
            decreases n - i,
        {
            r.push(self.index.meta_at(i));
            i = i + 1;
        }
        r
    }

    /// Records a compaction. The records at `compaction_sources` were copied,
    /// in that order and back to back, into a new archive segment, the
    /// `i`-th one `lens[i]` bytes long, and an empty active segment was
    /// created after it (see `compaction_gens`). Each key now points into
    /// the archive. Returns the generations among `on_disk` that nothing can
    /// reference any more: those older than the archive, to be deleted.
    /// Where the generations are used up, `lens` does not match the sources,
    /// holds a zero, or sums past `u64::MAX`, the call is refused with
    /// `Unexpected` and nothing changes.
    pub fn compact(&mut self, lens: &Vec<u64>, on_disk: &Vec<u64>) -> (r: Result<Vec<u64>, KvsError>)
        requires
            old(self).wf(),
        ensures
            final(self).wf(),
            final(self)@ == old(self)@,
            r is Ok <==> {
                &&& old(self).active_gen() <= u64::MAX - 2
                &&& lens@.len() == old(self).sources().len()
                &&& forall|i: int| 0 <= i < lens@.len() ==> #[trigger] lens@[i] > 0
                &&& sum(lens@) <= u64::MAX
            },
            r is Err ==> {
                &&& r->Err_0 is Unexpected
                &&& final(self).log() == old(self).log()
                &&& final(self).locations() == old(self).locations()
                &&& final(self).active_gen() == old(self).active_gen()
                &&& final(self).spec_cursor() == old(self).spec_cursor()
            },
            r matches Ok(doomed) ==> compacted(*old(self), *final(self), lens@, on_disk@, doomed@),
    {
        let n = self.index.len();
        proof {
            self.lemma_sources();
        }
        if self.gen > u64::MAX - 2 || lens.len() != n {
            return Err(KvsError::Unexpected);
        }
        let mut total: u64 = 0;
        let mut i: usize = 0;
        while i < lens.len()
            invariant
                i <= lens@.len(),
                total == sum(lens@.take(i as int)),
                forall|j: int| 0 <= j < i ==> #[trigger] lens@[j] > 0,
                self.wf(),
                self.log == old(self).log,
                self.state == old(self).state,
                self.gen == old(self).gen,
                self.cursor == old(self).cursor,
                self.index@ == old(self).index@,
                self.index.entries() == old(self).index.entries(),
                n == self.sources().len(),
            decreases lens@.len() - i,
        {
            assert(lens@.take(i as int + 1).drop_last() =~= lens@.take(i as int));
            if lens[i] == 0 || lens[i] > u64::MAX - total {
                proof {
                    if lens@[i as int] != 0 {
                        lemma_sum_prefix(lens@, i as int + 1, lens@.len() as int);
                        assert(lens@.take(lens@.len() as int) =~= lens@);
                    }
                }
                return Err(KvsError::Unexpected);
            }
            total = total + lens[i];
            i = i + 1;
        }
        assert(lens@.take(i as int) =~= lens@);
        let archive = self.gen + 1;
        let active = self.gen + 2;
        proof {
            self.lemma_sources();
        }
        let ghost old_entries = self.index.entries();
        let ghost keys = Seq::new(n as nat, |j: int| old_entries[j].0@);
        let ghost st = self.state@;
        let ghost mut arch = Map::<u64, CommandView>::empty();
        assert(seg_records(arch, 0) =~= crate::laws::rewrite(st, keys.take(0)));
        let mut off: u64 = 0;
        let mut i: usize = 0;
        while i < n
            invariant
                n == old_entries.len(),
                n == lens@.len(),
                total == sum(lens@),
                forall|j: int| 0 <= j < n ==> #[trigger] lens@[j] > 0,
                i <= n,
                off == sum(lens@.take(i as int)),
                self.index.wf(),
                self.index@.dom() == old(self).index@.dom(),
                self.index.entries().len() == n,
                forall|j: int| 0 <= j < n ==> #[trigger] self.index.entries()[j].0@ == old_entries[j].0@,
                forall|j: int| i <= j < n ==> #[trigger] self.index.entries()[j].1 == old_entries[j].1,
                forall|j: int|
                    0 <= j < i ==> {
                        let to = #[trigger] self.index.entries()[j].1;
                        let m = old_entries[j].1;
                        &&& to.gen == archive
                        &&& to.pos == sum(lens@.take(j))
                        &&& arch.contains_key(to.pos)
                        &&& arch[to.pos] == old(self).log@[m.gen][m.pos]
                    },
                forall|p: u64| #[trigger] arch.contains_key(p) ==> p < off,
                seg_records(arch, off as nat) == crate::laws::rewrite(st, keys.take(i as int)),
                keys == Seq::new(n as nat, |j: int| old_entries[j].0@),
                st == old(self).state@,
                forall|j: int|
                    0 <= j < n ==> {
                        let m = #[trigger] old_entries[j].1;
                        old(self).log@[m.gen][m.pos] == CommandView::Put(old_entries[j].0@, st[old_entries[j].0@])
                    },
                old_entries == old(self).index.entries(),
                self.log == old(self).log,
                self.state == old(self).state,
                self.gen == old(self).gen,
                self.cursor == old(self).cursor,
                self.replay_floor == old(self).replay_floor,
                self.ends == old(self).ends,
                archive == self.gen + 1,
            decreases n - i,
        {
            proof {
                lemma_sum_prefix(lens@, i as int + 1, lens@.len() as int);
                assert(lens@.take(i as int + 1).drop_last() =~= lens@.take(i as int));
                assert(lens@.take(lens@.len() as int) =~= lens@);
            }
            let m = self.index.meta_at(i);
            proof {
                self.index.lemma_entries();
                lemma_seg_records_append(arch, off as nat, self.log@[m.gen][m.pos], lens@[i as int] as nat);
                assert(crate::laws::rewrite(st, keys.take(i as int + 1)) =~= crate::laws::rewrite(
                    st,
                    keys.take(i as int),
                ).push(CommandView::Put(keys[i as int], st[keys[i as int]])));
                arch = arch.insert(off, self.log@[m.gen][m.pos]);
            }
            self.index.relocate(i, IndexMeta { gen: archive, pos: off });
            assert(self.index@.dom() =~= old(self).index@.dom());
            off = off + lens[i];
            i = i + 1;
        }
        let ghost new_log = Map::<u64, Map<u64, CommandView>>::empty().insert(archive, arch).insert(
            active,
            Map::empty(),
        );
        let ghost new_ends = Map::<u64, nat>::empty().insert(archive, off as nat).insert(active, 0nat);
        let ghost new_order = seq![archive, active];
        proof {
            assert(keys.take(n as int) =~= keys);
            assert(keys.to_set() =~= st.dom()) by {
                assert forall|k: Seq<char>| keys.to_set().contains(k) implies st.dom().contains(k) by {
                    let j = choose|j: int| 0 <= j < keys.len() && keys[j] == k;
                    assert(old(self).index@.contains_key(old_entries[j].0@));
                }
                assert forall|k: Seq<char>| st.dom().contains(k) implies keys.to_set().contains(k) by {
                    assert(old(self)@.contains_key(k));
                    let j = choose|j: int| 0 <= j < old(self).sources().len() && old(self).sources()[j].0@ == k;
                    assert(keys[j] == k);
                }
            }
            crate::laws::lemma_rewrite_replays(st, keys);
            assert(seg_records(arch, off as nat) =~= Seq::new(
                lens@.len(),
                |j: int| old(self).log@[old_entries[j].1.gen][old_entries[j].1.pos],
            ));
            assert(new_order.drop_last() =~= seq![archive]);
            assert(seq![archive].drop_last() =~= Seq::<u64>::empty());
            assert(log_records(new_log, new_ends, Seq::<u64>::empty()) =~= Seq::<CommandView>::empty());
            assert(seg_records(new_log[active], new_ends[active]) =~= Seq::<CommandView>::empty());
            assert(new_log[archive] == arch);
            assert(new_ends[archive] == off as nat);
            assert(new_order.last() == active);
            assert(seq![archive].last() == archive);
            assert(log_records(new_log, new_ends, seq![archive]) =~= seg_records(arch, off as nat));
            assert(log_records(new_log, new_ends, new_order) =~= seg_records(arch, off as nat));
            assert forall|g: u64| #[trigger] new_log.contains_key(g) <==> new_order.contains(g) by {
                if g == archive {
                    assert(new_order[0] == g);
                }
                if g == active {
                    assert(new_order[1] == g);
                }
            }
        }
        self.log = Ghost(new_log);
        self.ends = Ghost(new_ends);
        self.order = Ghost(new_order);
        self.gen = active;
        self.cursor = 0;
        self.replay_floor = active;
        assert(self.log@.dom() =~= set![archive, active]);
        assert(self.ends@.dom() =~= set![archive, active]);
        proof {
            self.index.lemma_entries();
            assert forall|k: Seq<char>| #[trigger] self.index@.contains_key(k) implies {
                let m = self.index@[k];
                &&& self.log@.contains_key(m.gen)
                &&& self.log@[m.gen].contains_key(m.pos)
                &&& self.log@[m.gen][m.pos] == CommandView::Put(k, self.state@[k])
            } by {
                let j = choose|j: int| 0 <= j < self.index.entries().len() && self.index.entries()[j].0@ == k;
                assert(old(self).index@.contains_key(old_entries[j].0@));
            }
        }
        let mut doomed: Vec<u64> = Vec::new();
        let mut i: usize = 0;
        while i < on_disk.len()
            invariant
                i <= on_disk@.len(),
                forall|g: u64| doomed@.contains(g) <==> on_disk@.take(i as int).contains(g) && g < archive,
            decreases on_disk@.len() - i,
        {
            assert(on_disk@.take(i as int + 1) =~= on_disk@.take(i as int).push(on_disk@[i as int]));
            let ghost before = doomed@;
            if on_disk[i] < archive {
                doomed.push(on_disk[i]);
            }
            assert forall|g: u64| doomed@.contains(g) <==> on_disk@.take(i as int + 1).contains(g) && g < archive by {
                if doomed@.contains(g) {
                    let t = choose|t: int| 0 <= t < doomed@.len() && doomed@[t] == g;
                    if t < before.len() {
                        assert(before[t] == g);
                        assert(before.contains(g));
                        let u = choose|u: int| 0 <= u < i && #[trigger] on_disk@.take(i as int)[u] == g;
                        assert(on_disk@.take(i as int + 1)[u] == g);
                    } else {
                        assert(on_disk@.take(i as int + 1)[i as int] == g);
                    }
                }
                if on_disk@.take(i as int + 1).contains(g) && g < archive {
                    let t = choose|t: int| 0 <= t < i + 1 && #[trigger] on_disk@.take(i as int + 1)[t] == g;
                    if t < i {
                        assert(on_disk@.take(i as int)[t] == g);
                    } else {
                        assert(doomed@[doomed@.len() - 1] == g);
                    }
                }
                if before.contains(g) {
                    let t = choose|t: int| 0 <= t < before.len() && before[t] == g;
                    assert(doomed@[t] == g);
                }
            }
            i = i + 1;
        }
        assert(on_disk@.take(i as int) =~= on_disk@);
        Ok(doomed)
    }
}

/// The value that the record `rec`, read at the location that `get` gave
/// for `key`, holds. Anything but a `Put` of `key` means that the index and
/// the segments disagree, and is refused with `Unexpected`.
pub fn read_value(key: &String, rec: KvsCommand) -> (r: Result<String, KvsError>)
    ensures
        r is Ok <==> (rec@ matches CommandView::Put(k, _) && k == key@),
        r matches Ok(v) ==> rec@ == CommandView::Put(key@, v@),
        r is Err ==> r->Err_0 is Unexpected,
{
    match rec {
        KvsCommand::Put(k, v) => {
            if k == *key {
                Ok(v)
            } else {
                Err(KvsError::Unexpected)
            }
        },
        KvsCommand::Remove(_) => Err(KvsError::Unexpected),
    }
}

} // verus!
