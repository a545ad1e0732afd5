//! The engine: it takes writes into the memtable, answers reads from the
//! memtable first and from the segments of the current generation after
//! it, and merges the two into the next generation when the memtable has
//! filled up.

use crate::codec::{append_record, decode, decoded, encoded, single_line, DecodeError};
use crate::generation::{
    all_entries, ids_of, lemma_ids_ascending, lemma_parsed_all_single_line, lemma_route,
    lemma_segments_ascending, lemma_sound_parses, lemma_split_sound, locate, merge_generation,
    parsed_all, read_segments, route, sound_generation, sound_segment, stored, text_views,
    texts_of, SegmentView,
};
use crate::memtable::Memtable;
use crate::merge::{lemma_merged_ascending, lemma_merged_map, lemma_merged_origin, merged, split};
use crate::segment::{
    all_single_line, as_map, ascending, entries, find, lemma_as_map_ascending, lemma_as_map_keys,
    parse_segment, parsed, segment_views, stream_of, value_at, Entry,
};
use crate::store::{generation_path, segment_path, Files, SegmentStore};
use vstd::pervasive::unreached;
use vstd::prelude::*;

verus! {

/// A log-structured merge engine over an in-memory segment store.
pub struct LSM {
    c0: Memtable,
    c1: Vec<u32>,
    store: SegmentStore,
    c0_threshold: usize,
    c1_threshold: usize,
    rev: usize,
}

impl View for LSM {
    type V = Map<u32, Seq<char>>;

    /// What the engine holds: the current generation, with the memtable
    /// laid over it.
    open spec fn view(&self) -> Map<u32, Seq<char>> {
        self.on_disk().union_prefer_right(self.mem())
    }
}

impl LSM {
    /// What the memtable holds.
    pub closed spec fn mem(&self) -> Map<u32, Seq<char>> {
        self.c0@
    }

    /// The segment index: the boundary of each segment of the current
    /// generation.
    pub closed spec fn index(&self) -> Seq<u32> {
        self.c1@
    }

    /// The revision of the current generation.
    pub closed spec fn revision(&self) -> usize {
        self.rev
    }

    /// How many entries the memtable takes before it is merged.
    pub closed spec fn c0_limit(&self) -> usize {
        self.c0_threshold
    }

    /// How many bytes a segment takes before it is closed.
    pub closed spec fn c1_limit(&self) -> usize {
        self.c1_threshold
    }

    /// The tree of generations that the engine has written.
    pub closed spec fn tree(&self) -> Map<usize, Files> {
        self.store@
    }

    /// The root directory of the tree.
    pub closed spec fn root(&self) -> Seq<char> {
        self.store.root()
    }

    /// The segments that the tree holds under the current revision.
    pub open spec fn files(&self) -> Files {
        if self.tree().contains_key(self.revision()) {
            self.tree()[self.revision()]
        } else {
            Map::empty()
        }
    }

    /// The segments of the current generation, in the order of the index.
    pub open spec fn generation(&self) -> Seq<SegmentView> {
        self.index().map_values(|id: u32| (id, self.files()[id]))
    }

    /// What the current generation holds.
    pub open spec fn on_disk(&self) -> Map<u32, Seq<char>> {
        as_map(all_entries(self.generation()))
    }

    /// What holds of every engine: the memtable holds finitely many keys,
    /// the index names exactly the segments that the tree holds under the
    /// current revision, and the tree holds no later revision.
    pub open spec fn wf(&self) -> bool {
        &&& self.mem().dom().finite()
        &&& self.files().dom() == self.index().to_set()
        &&& forall|r: usize| self.tree().contains_key(r) ==> r <= self.revision()
    }

    /// Whether the current generation is what a merge of one-line values
    /// writes: every segment parses, holds a record and is named by its
    /// last key, and the keys ascend strictly through the generation.
    pub open spec fn sound(&self) -> bool {
        sound_generation(self.generation())
    }

    /// Whether every segment of the current generation can be read back:
    /// each of its lines is a record.
    pub open spec fn readable(&self) -> bool {
        parsed_all(texts_of(self.generation())) is Ok
    }

    /// Whether every value in the memtable fits on one line.
    pub open spec fn clean(&self) -> bool {
        forall|k: u32| self.mem().contains_key(k) ==> single_line(#[trigger] self.mem()[k])
    }

    /// The text of the segment that the index routes `id` to: the first
    /// one whose boundary is not below `id`, if there is one.
    pub open spec fn routed(&self, id: u32) -> Option<Seq<char>> {
        let at = route(self.index(), id);
        if at < self.index().len() {
            Some(self.files()[self.index()[at]])
        } else {
            None
        }
    }

    /// Whether the segment that `id` is routed to can be read back.
    pub open spec fn findable(&self, id: u32) -> bool {
        match self.routed(id) {
            Some(text) => parsed(text) is Ok,
            None => true,
        }
    }

    /// What a search for `id` finds: what the segment that `id` is routed
    /// to holds under it.
    pub open spec fn found(&self, id: u32) -> Option<Seq<char>> {
        match self.routed(id) {
            Some(text) => value_at(as_map(stored(text)), id),
            None => None,
        }
    }

    /// What a read of `id` answers: what the memtable holds under it, and
    /// where it holds nothing, what a search finds.
    pub open spec fn answer(&self, id: u32) -> Option<Seq<char>> {
        if self.mem().contains_key(id) {
            Some(self.mem()[id])
        } else {
            self.found(id)
        }
    }

    /// Whether there is nothing to merge: the memtable is empty and the
    /// current generation has no segment.
    pub open spec fn idle(&self) -> bool {
        self.mem() == Map::<u32, Seq<char>>::empty() && self.index().len() == 0
    }

    /// Whether a write under `id` fills the memtable up, so that a merge
    /// follows it.
    pub open spec fn fills(&self, id: u32) -> bool {
        self.c0_limit() <= self.mem().dom().insert(id).len()
    }

    /// The segments that a merge of the memtable `mem` with the generation
    /// `generation` writes, where a segment is closed above `limit` bytes.
    pub open spec fn cut(
        mem: Map<u32, Seq<char>>,
        generation: Seq<SegmentView>,
        limit: usize,
    ) -> Seq<SegmentView> {
        split(merged(stream_of(mem), all_entries(generation)), limit as nat)
    }

    /// An empty engine that merges at 10 entries and closes a segment above
    /// 256 bytes.
    pub fn new() -> (lsm: LSM)
        ensures
            lsm.wf(),
            lsm.sound(),
            lsm@ == Map::<u32, Seq<char>>::empty(),
            lsm.mem() == Map::<u32, Seq<char>>::empty(),
            lsm.index() == Seq::<u32>::empty(),
            lsm.tree() == Map::<usize, Files>::empty(),
            lsm.revision() == 0,
            lsm.c0_limit() == 10,
            lsm.c1_limit() == 256,
            lsm.root() == "./tmp/lsm"@,
    {
        LSM::with_thresholds(10, 256)
    }

    /// An empty engine that merges at `c0_threshold` entries and closes a
    /// segment above `c1_threshold` bytes.
    pub fn with_thresholds(c0_threshold: usize, c1_threshold: usize) -> (lsm: LSM)
        ensures
            lsm.wf(),
            lsm.sound(),
            lsm@ == Map::<u32, Seq<char>>::empty(),
            lsm.mem() == Map::<u32, Seq<char>>::empty(),
            lsm.index() == Seq::<u32>::empty(),
            lsm.tree() == Map::<usize, Files>::empty(),
            lsm.revision() == 0,
            lsm.c0_limit() == c0_threshold,
            lsm.c1_limit() == c1_threshold,
            lsm.root() == "./tmp/lsm"@,
    {
        let lsm = LSM {
            c0: Memtable::new(),
            c1: Vec::new(),
            store: SegmentStore::new("./tmp/lsm"),
            c0_threshold,
            c1_threshold,
            rev: 0,
        };
        proof {
            assert(lsm.generation() =~= Seq::<SegmentView>::empty());
            assert(texts_of(lsm.generation()) =~= Seq::<Seq<char>>::empty());
            assert(all_entries(lsm.generation()) =~= Seq::<Entry>::empty());
            assert(lsm.store.files(lsm.rev).dom() =~= lsm.c1@.to_set());
            assert(lsm@ =~= Map::<u32, Seq<char>>::empty());
        }
        lsm
    }

    /// The memtable.
    pub fn memtable(&self) -> (table: &Memtable)
        ensures
            table@ == self.mem(),
    {
        &self.c0
    }

    /// The segment index.
    pub fn segment_index(&self) -> (index: &Vec<u32>)
        ensures
            index@ == self.index(),
    {
        &self.c1
    }

    /// The segment store.
    pub fn store(&self) -> (store: &SegmentStore)
        ensures
            store@ == self.tree(),
            store.root() == self.root(),
    {
        &self.store
    }

    /// The revision of the current generation.
    pub fn rev(&self) -> (rev: usize)
        ensures
            rev == self.revision(),
    {
        self.rev
    }

    /// How many entries the memtable takes before it is merged.
    pub fn c0_threshold(&self) -> (n: usize)
        ensures
            n == self.c0_limit(),
    {
        self.c0_threshold
    }

    /// How many bytes a segment takes before it is closed.
    pub fn c1_threshold(&self) -> (n: usize)
        ensures
            n == self.c1_limit(),
    {
        self.c1_threshold
    }

    /// What the engine holds under `id`: what the memtable holds, and
    /// where it holds nothing, what the search finds. The search reads one
    /// segment, which has to be readable, as every segment of a sound
    /// generation is.
    pub fn get(&self, id: u32) -> (r: Option<String>)
        requires
            self.wf(),
            self.mem().contains_key(id) || self.findable(id) || self.sound(),
        ensures
            match r {
                Some(value) => self.answer(id) == Some(value@),
                None => self.answer(id) is None,
            },
            self.sound() ==> self.answer(id) == value_at(self@, id),
    {
        proof {
            if self.sound() {
                self.lemma_found(id);
            }
        }
        match self.c0.get(id) {
            Some(value) => Some(value),
            None => self.search(id),
        }
    }

    /// What the current generation holds under `id`. The index routes the
    /// key to the first segment whose boundary is not below it; that
    /// segment alone is read, and it has to be readable, as every segment
    /// of a sound generation is. Where every boundary is below the key,
    /// nothing is read.
    pub fn search(&self, id: u32) -> (r: Option<String>)
        requires
            self.wf(),
            self.findable(id) || self.sound(),
        ensures
            match r {
                Some(value) => self.found(id) == Some(value@),
                None => self.found(id) is None,
            },
            self.sound() ==> self.found(id) == value_at(self.on_disk(), id),
    {
        proof {
            if self.sound() {
                self.lemma_found(id);
            }
        }
        match locate(&self.c1, id) {
            None => None,
            Some(i) => {
                proof {
                    assert(self.c1@.to_set().contains(self.c1@[i as int]));
                }
                match self.store.open_for_read(self.rev, self.c1[i]) {
                    None => unreached(),
                    Some(text) => match parse_segment(text.as_str()) {
                        Err(_) => unreached(),
                        Ok(records) => find(&records, id),
                    },
                }
            },
        }
    }

    /// In a sound generation the search finds whatever the generation
    /// holds: a key stands in no other segment than the one it is routed
    /// to.
    pub proof fn lemma_found(&self, id: u32)
        requires
            self.sound(),
        ensures
            self.findable(id),
            self.found(id) == value_at(self.on_disk(), id),
    {
        let segs = self.generation();
        assert(ids_of(segs) =~= self.index());
        lemma_route(segs, id);
        let at = route(self.index(), id);
        if at < self.index().len() {
            assert(sound_segment(segs[at]));
        }
    }

    /// Whether every segment of the current generation can be read back.
    pub fn can_read(&self) -> (r: bool)
        requires
            self.wf(),
        ensures
            r == self.readable(),
    {
        let texts = self.read_texts();
        match read_segments(&texts) {
            Ok(_) => true,
            Err(_) => false,
        }
    }

    /// Whether the segment that `id` is routed to can be read back.
    pub fn can_find(&self, id: u32) -> (r: bool)
        requires
            self.wf(),
        ensures
            r == self.findable(id),
    {
        match locate(&self.c1, id) {
            None => true,
            Some(i) => {
                proof {
                    assert(self.c1@.to_set().contains(self.c1@[i as int]));
                }
                match self.store.open_for_read(self.rev, self.c1[i]) {
                    None => unreached(),
                    Some(text) => match parse_segment(text.as_str()) {
                        Err(_) => false,
                        Ok(_) => true,
                    },
                }
            },
        }
    }

    /// Whether a write under `id` fills the memtable up.
    pub fn would_fill(&self, id: u32) -> (r: bool)
        ensures
            r == self.fills(id),
    {
        let n = self.c0.len();
        if self.c0.contains(id) {
            assert(self.mem().dom().insert(id) =~= self.mem().dom());
            self.c0_threshold <= n
        } else {
            self.c0_threshold <= n || self.c0_threshold - 1 == n
        }
    }

    /// The texts of the segments of the current generation, in the order
    /// of the index.
    fn read_texts(&self) -> (texts: Vec<String>)
        requires
            self.wf(),
        ensures
            text_views(texts@) == texts_of(self.generation()),
    {
        let mut texts: Vec<String> = Vec::new();
        let mut i: usize = 0;
        while i < self.c1.len()
            invariant
                i <= self.c1.len(),
                self.wf(),
                text_views(texts@) == texts_of(self.generation()).take(i as int),
            decreases self.c1.len() - i,
        {
            proof {
                assert(self.c1@.to_set().contains(self.c1@[i as int]));
            }
            match self.store.open_for_read(self.rev, self.c1[i]) {
                None => unreached(),
                Some(text) => {
                    proof {
                        let all = texts_of(self.generation());
                        let done = text_views(texts@);
                        let more = text_views(texts@.push(text));
                        assert(all[i as int] == text@);
                        assert(done.len() == i);
                        assert(more.len() == i + 1);
                        assert forall|k: int| 0 <= k < more.len() implies more[k] == all.take(
                            i + 1,
                        )[k] by {
                            if k < i {
                                assert(more[k] == done[k]);
                                assert(done[k] == all.take(i as int)[k]);
                            }
                        }
                        assert(more =~= all.take(i + 1));
                    }
                    texts.push(text);
                },
            }
            i = i + 1;
        }
        proof {
            let all = texts_of(self.generation());
            assert(all.take(i as int) =~= all);
        }
        texts
    }

    /// Merges the memtable with the current generation into the next
    /// generation, which becomes the current one, and empties the
    /// memtable. Where there is nothing to merge, nothing happens. The
    /// current generation is read back, so it has to be readable, as a
    /// sound generation is. Where it is sound and every value in the
    /// memtable fits on one line, the next generation is sound, and what
    /// the engine holds stays as it is; only where it holds it changes.
    pub fn merge(&mut self) -> (r: Result<(), String>)
        requires
            old(self).wf(),
            old(self).readable() || old(self).sound(),
        ensures
            final(self).wf(),
            final(self).c0_limit() == old(self).c0_limit(),
            final(self).c1_limit() == old(self).c1_limit(),
            final(self).root() == old(self).root(),
            r is Err <==> !old(self).idle() && old(self).revision() == usize::MAX,
            r matches Err(e) ==> e@ == "revision counter exhausted"@,
            old(self).idle() || r is Err ==> {
                &&& final(self).mem() == old(self).mem()
                &&& final(self).index() == old(self).index()
                &&& final(self).revision() == old(self).revision()
                &&& final(self).tree() == old(self).tree()
            },
            !old(self).idle() && r is Ok ==> {
                let next = LSM::cut(old(self).mem(), old(self).generation(), old(self).c1_limit());
                &&& final(self).mem() == Map::<u32, Seq<char>>::empty()
                &&& final(self).revision() == old(self).revision() + 1
                &&& final(self).index() == ids_of(next)
                &&& final(self).tree() == old(self).tree().insert(
                    final(self).revision(),
                    as_map(next),
                )
            },
            old(self).sound() && old(self).clean() ==> {
                &&& final(self).sound()
                &&& final(self)@ == old(self)@
                &&& !old(self).idle() && r is Ok ==> {
                    &&& final(self).generation() == LSM::cut(
                        old(self).mem(),
                        old(self).generation(),
                        old(self).c1_limit(),
                    )
                    &&& all_entries(final(self).generation()) == merged(
                        stream_of(old(self).mem()),
                        all_entries(old(self).generation()),
                    )
                    &&& final(self).on_disk() == old(self)@
                }
            },
    {
        if self.c0.is_empty() && self.c1.len() == 0 {
            return Ok(());
        }
        if self.rev == usize::MAX {
            return Err("revision counter exhausted".to_owned());
        }
        let newer = self.c0.iterate();
        let texts = self.read_texts();
        let ghost old_gen = self.generation();
        proof {
            if self.sound() {
                lemma_sound_parses(old_gen);
            }
        }
        let ghost older = all_entries(old_gen);
        let ghost fresh = entries(newer@);
        let ghost es = merged(fresh, older);
        let ghost limit = self.c1_threshold as nat;
        let segments = match merge_generation(&newer, &texts, self.c1_threshold) {
            Ok(segments) => segments,
            Err(_) => unreached(),
        };
        let ghost views = segment_views(segments@);
        proof {
            assert(views == split(es, limit));
            assert(views == LSM::cut(self.mem(), old_gen, self.c1_threshold));
            lemma_as_map_keys(views);
            assert(!self.store@.contains_key((self.rev + 1) as usize));
            if self.sound() && self.clean() {
                lemma_merged_ascending(fresh, older);
                lemma_merged_origin(fresh, older);
                lemma_merged_map(fresh, older);
                lemma_parsed_all_single_line(texts_of(old_gen));
                lemma_as_map_ascending(fresh);
                assert(all_single_line(es)) by {
                    assert forall|i: int| 0 <= i < es.len() implies single_line(
                        #[trigger] es[i].1,
                    ) by {
                        if fresh.contains(es[i]) {
                            let j = choose|j: int| 0 <= j < fresh.len() && fresh[j] == es[i];
                            assert(self.c0@.contains_key(fresh[j].0));
                            assert(self.c0@[fresh[j].0] == fresh[j].1);
                        } else {
                            let j = choose|j: int| 0 <= j < older.len() && older[j] == es[i];
                            assert(single_line(older[j].1));
                        }
                    }
                }
                lemma_split_sound(es, limit);
                lemma_ids_ascending(views);
                lemma_as_map_ascending(views);
            }
        }
        let new_rev: usize = self.rev + 1;
        let ids = self.store.write_generation(new_rev, &segments);
        self.rev = new_rev;
        self.c1 = ids;
        self.c0.clear();
        proof {
            let files = self.files();
            assert(Map::<u32, Seq<char>>::empty().union_prefer_right(as_map(views)) =~= as_map(
                views,
            ));
            assert(files == as_map(views));
            assert(self.c1@ =~= ids_of(views));
            assert(files.dom() =~= self.c1@.to_set()) by {
                assert forall|k: u32| files.dom().contains(k) <==> self.c1@.to_set().contains(
                    k,
                ) by {
                    if files.dom().contains(k) {
                        let i = choose|i: int| 0 <= i < views.len() && (#[trigger] views[i]).0 == k;
                        assert(self.c1@[i] == k);
                    }
                    if self.c1@.to_set().contains(k) {
                        let i = choose|i: int| 0 <= i < self.c1@.len() && self.c1@[i] == k;
                        assert(views[i].0 == k);
                    }
                }
            }
            assert forall|r: usize| self.tree().contains_key(r) implies r <= self.revision() by {
                if r != self.rev {
                    assert(old(self).tree().contains_key(r));
                }
            }
            if old(self).sound() && old(self).clean() {
                assert(self.generation() =~= views) by {
                    assert(self.generation().len() == views.len());
                    assert forall|k: int| 0 <= k < views.len() implies self.generation()[k]
                        == views[k] by {
                        assert(self.c1@[k] == views[k].0);
                        assert(as_map(views)[views[k].0] == views[k].1);
                    }
                }
                assert(self.on_disk() == old(self)@);
                assert(self@ =~= old(self)@);
            }
        }
        Ok(())
    }

    /// Stores `data` under `id`, in place of what the key held. The write
    /// goes into the memtable and always succeeds there; when it has
    /// filled the memtable up, the merge follows before the call returns,
    /// and for that the current generation has to be readable, as a sound
    /// generation is.
    pub fn set(&mut self, id: u32, data: &str) -> (r: Result<(), String>)
        requires
            old(self).wf(),
            old(self).fills(id) ==> old(self).readable() || old(self).sound(),
        ensures
            final(self).wf(),
            final(self).c0_limit() == old(self).c0_limit(),
            final(self).c1_limit() == old(self).c1_limit(),
            final(self).root() == old(self).root(),
            r is Err <==> old(self).fills(id) && old(self).revision() == usize::MAX,
            r matches Err(e) ==> e@ == "revision counter exhausted"@,
            !old(self).fills(id) || r is Err ==> {
                &&& final(self).mem() == old(self).mem().insert(id, data@)
                &&& final(self).index() == old(self).index()
                &&& final(self).revision() == old(self).revision()
                &&& final(self).tree() == old(self).tree()
                &&& final(self)@ == old(self)@.insert(id, data@)
            },
            old(self).fills(id) && r is Ok ==> {
                let next = LSM::cut(
                    old(self).mem().insert(id, data@),
                    old(self).generation(),
                    old(self).c1_limit(),
                );
                &&& final(self).mem() == Map::<u32, Seq<char>>::empty()
                &&& final(self).revision() == old(self).revision() + 1
                &&& final(self).index() == ids_of(next)
                &&& final(self).tree() == old(self).tree().insert(
                    final(self).revision(),
                    as_map(next),
                )
            },
            old(self).sound() && old(self).clean() && single_line(data@) ==> {
                &&& final(self).sound()
                &&& final(self).clean()
                &&& final(self)@ == old(self)@.insert(id, data@)
                &&& old(self).fills(id) && r is Ok ==> {
                    &&& final(self).generation() == LSM::cut(
                        old(self).mem().insert(id, data@),
                        old(self).generation(),
                        old(self).c1_limit(),
                    )
                    &&& all_entries(final(self).generation()) == merged(
                        stream_of(old(self).mem().insert(id, data@)),
                        all_entries(old(self).generation()),
                    )
                    &&& final(self).on_disk() == old(self)@.insert(id, data@)
                }
            },
    {
        self.c0.put(id, data.to_owned());
        proof {
            assert(self.mem().dom() =~= old(self).mem().dom().insert(id));
            assert(self.generation() == old(self).generation());
            assert(self@ =~= old(self)@.insert(id, data@));
            assert(self.c0@.contains_key(id));
            assert(!self.idle());
            if old(self).sound() {
                assert(self.sound());
            }
        }
        if self.c0_threshold <= self.c0.len() {
            self.merge()
        } else {
            Ok(())
        }
    }

    /// Removes the earlier generation `revision` from the store. The
    /// current generation stays: asked to remove it, or a revision that has
    /// not been written, the engine removes nothing and says so.
    pub fn drop_generation(&mut self, revision: usize) -> (dropped: bool)
        requires
            old(self).wf(),
        ensures
            final(self).wf(),
            final(self)@ == old(self)@,
            final(self).mem() == old(self).mem(),
            final(self).index() == old(self).index(),
            final(self).generation() == old(self).generation(),
            final(self).revision() == old(self).revision(),
            final(self).c0_limit() == old(self).c0_limit(),
            final(self).c1_limit() == old(self).c1_limit(),
            final(self).root() == old(self).root(),
            dropped == (revision < old(self).revision()),
            dropped ==> final(self).tree() == old(self).tree().remove(revision),
            !dropped ==> final(self).tree() == old(self).tree(),
    {
        if revision < self.rev {
            self.store.drop_generation(revision);
            proof {
                assert(self.files() == old(self).files());
                assert(self.generation() =~= old(self).generation());
                assert forall|r: usize| self.tree().contains_key(r) implies r
                    <= self.revision() by {
                    assert(old(self).tree().contains_key(r));
                }
                assert(self.mem() == old(self).mem());
            }
            true
        } else {
            false
        }
    }

    /// The path of the directory of the current generation.
    pub fn dir(&self) -> (path: String)
        ensures
            path@ == generation_path(self.root(), self.revision()),
    {
        self.store.generation_dir(self.rev)
    }

    /// The path of the segment `id` of the current generation.
    pub fn create_path(&self, id: u32) -> (path: String)
        ensures
            path@ == segment_path(self.root(), self.revision(), id),
    {
        self.store.segment_file(self.rev, id)
    }

    /// The paths of the segments of the current generation, in the order
    /// of the index.
    pub fn sorted_segment_path(&self) -> (paths: Vec<String>)
        ensures
            paths.len() == self.index().len(),
            forall|i: int|
                0 <= i < paths.len() ==> (#[trigger] paths[i])@ == segment_path(
                    self.root(),
                    self.revision(),
                    self.index()[i],
                ),
    {
        let mut paths: Vec<String> = Vec::new();
        let mut i: usize = 0;
        while i < self.c1.len()
            invariant
                i <= self.c1.len(),
                paths.len() == i,
                forall|k: int|
                    0 <= k < i ==> (#[trigger] paths[k])@ == segment_path(
                        self.root(),
                        self.revision(),
                        self.index()[k],
                    ),
            decreases self.c1.len() - i,
        {
            paths.push(self.create_path(self.c1[i]));
            i = i + 1;
        }
        paths
    }

    /// Decodes one line into its key and its value.
    pub fn parse(line: &str) -> (r: Result<(u32, String), DecodeError>)
        ensures
            match r {
                Ok(kv) => decoded(line@) == Ok::<Entry, DecodeError>((kv.0, kv.1@)),
                Err(e) => decoded(line@) == Err::<Entry, DecodeError>(e),
            },
    {
        match decode(line) {
            Ok(record) => Ok((record.key, record.value)),
            Err(e) => Err(e),
        }
    }

    /// Appends the line of the record `kv` to `s`.
    pub fn add_k_v(s: &mut String, kv: (&u32, &String))
        ensures
            final(s)@ == old(s)@ + encoded(*kv.0, kv.1@),
    {
        append_record(s, *kv.0, kv.1.as_str());
    }

    /// Before a merge the last write wins, whatever the values are: where
    /// the memtable holds what the writes `ws` have made of an earlier
    /// memtable, a read of a key answers with the value of the last write
    /// that named it.
    pub proof fn lemma_answers_last_write(&self, earlier: Map<u32, Seq<char>>, ws: Seq<Entry>, i: int)
        requires
            self.mem() == after_writes(earlier, ws),
            0 <= i < ws.len(),
            forall|j: int| i < j < ws.len() ==> ws[j].0 != ws[i].0,
        ensures
            self.answer(ws[i].0) == Some(ws[i].1),
    {
        lemma_last_write_wins(earlier, ws, i);
    }

    /// The order that a merge of one-line values leaves behind. The index
    /// has one boundary for each segment of the current generation, and
    /// they ascend strictly.
    /// Each segment is stored under its boundary, holds at least one
    /// record, and its keys ascend strictly up to the boundary, which is
    /// the key of its last record. Through the whole generation the keys
    /// ascend strictly, so that a key stands in one segment at most. The
    /// store holds, under the current revision, the segments of the index
    /// and no others.
    pub proof fn lemma_ordering(&self)
        requires
            self.wf(),
            self.sound(),
        ensures
            self.generation().len() == self.index().len(),
            forall|i: int, j: int|
                0 <= i < j < self.index().len() ==> self.index()[i] < self.index()[j],
            forall|i: int|
                0 <= i < self.index().len() ==> {
                    let segment = #[trigger] self.generation()[i];
                    &&& segment.0 == self.index()[i]
                    &&& self.tree().contains_key(self.revision())
                    &&& self.tree()[self.revision()].contains_key(segment.0)
                    &&& self.tree()[self.revision()][segment.0] == segment.1
                    &&& sound_segment(segment)
                    &&& ascending(stored(segment.1))
                    &&& stored(segment.1).last().0 == self.index()[i]
                },
            forall|i: int, j: int|
                0 <= i < self.index().len() && 0 <= j < stored(self.generation()[i].1).len()
                    ==> (#[trigger] stored(self.generation()[i].1)[j]).0 <= self.index()[i],
            ascending(all_entries(self.generation())),
            self.tree().contains_key(self.revision()) ==> self.tree()[self.revision()].dom()
                == self.index().to_set(),
            forall|r: usize| self.tree().contains_key(r) ==> r <= self.revision(),
    {
        let segs = self.generation();
        lemma_ids_ascending(segs);
        lemma_segments_ascending(segs);
        assert forall|i: int, j: int| 0 <= i < j < self.index().len() implies self.index()[i]
            < self.index()[j] by {
            assert(segs[i].0 < segs[j].0);
        }
        assert forall|i: int| 0 <= i < self.index().len() implies {
            let segment = #[trigger] self.generation()[i];
            &&& segment.0 == self.index()[i]
            &&& self.tree().contains_key(self.revision())
            &&& self.tree()[self.revision()].contains_key(segment.0)
            &&& self.tree()[self.revision()][segment.0] == segment.1
            &&& sound_segment(segment)
            &&& ascending(stored(segment.1))
            &&& stored(segment.1).last().0 == self.index()[i]
        } by {
            assert(self.c1@.to_set().contains(self.c1@[i]));
            assert(sound_segment(segs[i]));
        }
    }
}

/// What a mapping holds after the writes `ws` have been set one by one.
pub open spec fn after_writes(before: Map<u32, Seq<char>>, ws: Seq<Entry>) -> Map<u32, Seq<char>>
    decreases ws.len(),
{
    if ws.len() == 0 {
        before
    } else {
        after_writes(before, ws.drop_last()).insert(ws.last().0, ws.last().1)
    }
}

/// The last write wins: after any run of writes, a key holds the value of
/// the last write that named it.
pub proof fn lemma_last_write_wins(before: Map<u32, Seq<char>>, ws: Seq<Entry>, i: int)
    requires
        0 <= i < ws.len(),
        forall|j: int| i < j < ws.len() ==> ws[j].0 != ws[i].0,
    ensures
        value_at(after_writes(before, ws), ws[i].0) == Some(ws[i].1),
    decreases ws.len(),
{
    if i == ws.len() - 1 {
    } else {
        let init = ws.drop_last();
        assert(init[i] == ws[i]);
        assert forall|j: int| i < j < init.len() implies init[j].0 != init[i].0 by {
            assert(init[j] == ws[j]);
        }
        lemma_last_write_wins(before, init, i);
        assert(ws.last().0 != ws[i].0);
    }
}

} // verus!
