//! The segment store: the generations of segments, each generation a
//! directory named by its revision, each segment a file named by its
//! largest key. The store holds the tree in memory; whoever wants it on a
//! disk writes it out from here.

use crate::decimal::{decimal, push_decimal};
use crate::memtable::lemma_walk;
use crate::segment::{as_map, segment_views, Segment};
use std::collections::BTreeMap;
use vstd::prelude::*;
use vstd::std_specs::btree::{key_obeys_cmp_spec, spec_btree_map_iter};
use vstd::std_specs::iter::IteratorSpec;

verus! {

/// The segments of one generation: the text of each, by its identifier.
pub type Files = Map<u32, Seq<char>>;

/// What a file map holds, text by text.
pub open spec fn files_view(files: BTreeMap<u32, String>) -> Files {
    files@.map_values(|text: String| text@)
}

/// The path of the directory of generation `revision` under `root`.
pub open spec fn generation_path(root: Seq<char>, revision: usize) -> Seq<char> {
    root + seq!['/'] + decimal(revision as nat)
}

/// The path of the segment `id` of generation `revision` under `root`.
pub open spec fn segment_path(root: Seq<char>, revision: usize, id: u32) -> Seq<char> {
    generation_path(root, revision) + seq!['/'] + decimal(id as nat)
}

/// Why the store did not do what it was asked.
#[derive(Debug, Clone, Copy, PartialEq, Eq, Structural)]
pub enum StoreError {
    /// The generation has no directory.
    NoSuchGeneration,
}

/// A tree of generations under one root directory.
pub struct SegmentStore {
    root: String,
    generations: BTreeMap<usize, BTreeMap<u32, String>>,
}

impl View for SegmentStore {
    type V = Map<usize, Files>;

    closed spec fn view(&self) -> Map<usize, Files> {
        self.generations@.map_values(|files: BTreeMap<u32, String>| files_view(files))
    }
}

impl SegmentStore {
    /// The root directory of the tree.
    pub closed spec fn root(&self) -> Seq<char> {
        self.root@
    }

    /// The segments of generation `revision`; none where it has no
    /// directory.
    pub open spec fn files(&self, revision: usize) -> Files {
        if self@.contains_key(revision) {
            self@[revision]
        } else {
            Map::empty()
        }
    }

    /// A store without any generation, under `root`.
    pub fn new(root: &str) -> (store: SegmentStore)
        ensures
            store@ == Map::<usize, Files>::empty(),
            store.root() == root@,
    {
        let store = SegmentStore { root: root.to_owned(), generations: BTreeMap::new() };
        assert(store@ =~= Map::<usize, Files>::empty());
        store
    }

    /// The path of the directory of generation `revision`.
    pub fn generation_dir(&self, revision: usize) -> (path: String)
        ensures
            path@ == generation_path(self.root(), revision),
    {
        let mut path = self.root.clone();
        path.append("/");
        push_decimal(&mut path, revision as u64);
        proof {
            reveal_strlit("/");
            assert("/"@ =~= seq!['/']);
        }
        path
    }

    /// The path of the segment `id` of generation `revision`.
    pub fn segment_file(&self, revision: usize, id: u32) -> (path: String)
        ensures
            path@ == segment_path(self.root(), revision, id),
    {
        let mut path = self.generation_dir(revision);
        path.append("/");
        push_decimal(&mut path, id as u64);
        proof {
            reveal_strlit("/");
            assert("/"@ =~= seq!['/']);
        }
        path
    }

    /// Makes the directory of generation `revision`, unless it is there, and
    /// gives its path. What the generation holds stays as it is.
    pub fn ensure_generation_dir(&mut self, revision: usize) -> (path: String)
        ensures
            final(self).root() == old(self).root(),
            path@ == generation_path(old(self).root(), revision),
            old(self)@.contains_key(revision) ==> final(self)@ == old(self)@,
            !old(self)@.contains_key(revision) ==> final(self)@ == old(self)@.insert(
                revision,
                Map::empty(),
            ),
    {
        broadcast use vstd::laws_cmp::group_laws_cmp;

        let path = self.generation_dir(revision);
        if !self.generations.contains_key(&revision) {
            let files: BTreeMap<u32, String> = BTreeMap::new();
            assert(files_view(files) =~= Map::<u32, Seq<char>>::empty());
            self.generations.insert(revision, files);
            assert(self@ =~= old(self)@.insert(revision, Map::empty()));
        } else {
            assert(self@ =~= old(self)@);
        }
        path
    }

    /// Whether generation `revision` has a directory.
    pub fn has_generation(&self, revision: usize) -> (r: bool)
        ensures
            r == self@.contains_key(revision),
    {
        broadcast use vstd::laws_cmp::group_laws_cmp;

        self.generations.contains_key(&revision)
    }

    /// The identifiers of the segments of generation `revision`, in
    /// ascending order of their numbers; none where the generation has no
    /// directory.
    pub fn list_segments(&self, revision: usize) -> (ids: Vec<u32>)
        ensures
            ids@.to_set() == self.files(revision).dom(),
            forall|i: int, j: int| 0 <= i < j < ids.len() ==> ids[i] < ids[j],
    {
        broadcast use vstd::laws_cmp::group_laws_cmp;

        let mut ids: Vec<u32> = Vec::new();
        match self.generations.get(&revision) {
            None => {
                assert(ids@.to_set() =~= self.files(revision).dom());
            },
            Some(files) => {
                assert(key_obeys_cmp_spec::<u32>());
                for kv in it: files.iter()
                    invariant
                        it.seq() == spec_btree_map_iter(files).remaining(),
                        ids.len() == it.index(),
                        forall|i: int|
                            0 <= i < ids.len() ==> ids[i] == *(#[trigger] it.seq()[i]).0,
                {
                    let (id, _text) = kv;
                    ids.push(*id);
                }
                proof {
                    let r = spec_btree_map_iter(files).remaining();
                    lemma_walk(files);
                    assert forall|i: int, j: int| 0 <= i < j < ids.len() implies ids[i]
                        < ids[j] by {
                        assert(*r[i].0 < *r[j].0);
                    }
                    let dom = self.files(revision).dom();
                    assert(dom =~= files@.dom());
                    assert forall|k: u32| ids@.to_set().contains(k) <==> dom.contains(k) by {
                        if ids@.to_set().contains(k) {
                            let i = choose|i: int| 0 <= i < ids.len() && ids[i] == k;
                            assert(files@.contains_key(*r[i].0));
                        }
                        if dom.contains(k) {
                            assert(files@.contains_key(k));
                            let i = choose|i: int| 0 <= i < r.len() && *(#[trigger] r[i]).0 == k;
                            assert(ids[i] == k);
                        }
                    }
                    assert(ids@.to_set() =~= dom);
                }
            },
        }
        ids
    }

    /// The text of the segment `id` of generation `revision`, if there is
    /// such a segment.
    pub fn open_for_read(&self, revision: usize, id: u32) -> (r: Option<String>)
        ensures
            match r {
                Some(text) => self.files(revision).contains_key(id) && self.files(revision)[id]
                    == text@,
                None => !self.files(revision).contains_key(id),
            },
    {
        broadcast use vstd::laws_cmp::group_laws_cmp;

        match self.generations.get(&revision) {
            None => None,
            Some(files) => match files.get(&id) {
                None => None,
                Some(text) => Some(text.clone()),
            },
        }
    }

    /// Writes the segment `id` of generation `revision`, in place of what
    /// stood under that name. The generation must have its directory: where
    /// it has none, nothing is written.
    pub fn write_segment(&mut self, revision: usize, id: u32, content: String) -> (r: Result<
        (),
        StoreError,
    >)
        ensures
            final(self).root() == old(self).root(),
            r is Ok <==> old(self)@.contains_key(revision),
            r is Ok ==> final(self)@ == old(self)@.insert(
                revision,
                old(self)@[revision].insert(id, content@),
            ),
            r is Err ==> final(self)@ == old(self)@,
    {
        broadcast use vstd::laws_cmp::group_laws_cmp;

        match self.generations.remove(&revision) {
            None => {
                assert(self@ =~= old(self)@);
                Err(StoreError::NoSuchGeneration)
            },
            Some(files) => {
                let mut files = files;
                let ghost before = files_view(files);
                files.insert(id, content);
                assert(files_view(files) =~= before.insert(id, content@));
                self.generations.insert(revision, files);
                assert(self@ =~= old(self)@.insert(
                    revision,
                    old(self)@[revision].insert(id, content@),
                ));
                Ok(())
            },
        }
    }

    /// Writes `segments` as the segments of generation `revision`, one
    /// after the other, and gives their identifiers in that order. The
    /// directory of the generation is made first, unless it is there.
    pub fn write_generation(&mut self, revision: usize, segments: &Vec<Segment>) -> (ids: Vec<
        u32,
    >)
        ensures
            final(self).root() == old(self).root(),
            final(self)@ == old(self)@.insert(
                revision,
                old(self).files(revision).union_prefer_right(as_map(segment_views(segments@))),
            ),
            ids@ == segments@.map_values(|s: Segment| s.id),
    {
        let ghost views = segment_views(segments@);
        let ghost before = self.files(revision);
        let _ = self.ensure_generation_dir(revision);
        let mut ids: Vec<u32> = Vec::new();
        let mut i: usize = 0;
        proof {
            assert(before.union_prefer_right(as_map(views.take(0))) =~= before);
            assert(self@ =~= old(self)@.insert(
                revision,
                before.union_prefer_right(as_map(views.take(0))),
            ));
        }
        while i < segments.len()
            invariant
                i <= segments.len(),
                views == segment_views(segments@),
                self.root() == old(self).root(),
                self@ == old(self)@.insert(
                    revision,
                    before.union_prefer_right(as_map(views.take(i as int))),
                ),
                ids@ == segments@.take(i as int).map_values(|s: Segment| s.id),
            decreases segments.len() - i,
        {
            let ghost done = views.take(i as int);
            let ghost next = views.take(i + 1);
            proof {
                assert(next.drop_last() =~= done);
                assert(next.last() == segments@[i as int]@);
            }
            let r = self.write_segment(revision, segments[i].id, segments[i].content.clone());
            ids.push(segments[i].id);
            proof {
                assert(r is Ok);
                assert(before.union_prefer_right(as_map(done)).insert(
                    segments@[i as int].id,
                    segments@[i as int].content@,
                ) =~= before.union_prefer_right(as_map(next)));
                assert(self@ =~= old(self)@.insert(
                    revision,
                    before.union_prefer_right(as_map(next)),
                ));
                assert(ids@ =~= segments@.take(i + 1).map_values(|s: Segment| s.id));
            }
            i = i + 1;
        }
        proof {
            assert(views.take(i as int) =~= views);
            assert(segments@.take(i as int) =~= segments@);
        }
        ids
    }

    /// Removes generation `revision` with all its segments.
    pub fn drop_generation(&mut self, revision: usize)
        ensures
            final(self).root() == old(self).root(),
            final(self)@ == old(self)@.remove(revision),
    {
        broadcast use vstd::laws_cmp::group_laws_cmp;

        let _ = self.generations.remove(&revision);
        assert(self@ =~= old(self)@.remove(revision));
    }
}

} // verus!
