//! A generation: the segments that one merge wrote, in ascending order,
//! and what they store together.

use crate::codec::{single_line, DecodeError, Record};
use crate::merge::{
    chunks, lemma_split_stores, merge_records, merged, split, split_segments,
};
use crate::segment::{
    all_single_line, as_map, ascending, entries, lemma_as_map_keys, lemma_parsed_single_line,
    parse_segment, parsed, segment_views, value_at, Entry, Segment,
};
use vstd::prelude::*;

verus! {

/// A segment as the contracts speak of it: its identifier and its text.
pub type SegmentView = (u32, Seq<char>);

/// The texts of the segments `segs`, in their order.
pub open spec fn texts_of(segs: Seq<SegmentView>) -> Seq<Seq<char>> {
    segs.map_values(|s: SegmentView| s.1)
}

/// The identifiers of the segments `segs`, in their order.
pub open spec fn ids_of(segs: Seq<SegmentView>) -> Seq<u32> {
    segs.map_values(|s: SegmentView| s.0)
}

/// The characters of each text of `texts`.
pub open spec fn text_views(texts: Seq<String>) -> Seq<Seq<char>> {
    texts.map_values(|t: String| t@)
}

/// `r` with `first` put in front of what it holds, if it holds anything.
pub open spec fn put_front(first: Seq<Entry>, r: Result<Seq<Entry>, DecodeError>) -> Result<
    Seq<Entry>,
    DecodeError,
> {
    match r {
        Ok(rest) => Ok(first + rest),
        Err(e) => Err(e),
    }
}

/// The stream that the texts store, one after the other. The first text
/// that does not parse decides the error.
pub open spec fn parsed_all(texts: Seq<Seq<char>>) -> Result<Seq<Entry>, DecodeError>
    decreases texts.len(),
{
    if texts.len() == 0 {
        Ok(Seq::empty())
    } else {
        match parsed(texts[0]) {
            Err(e) => Err(e),
            Ok(first) => put_front(first, parsed_all(texts.drop_first())),
        }
    }
}

/// The entries that `text` stores; none, if it does not parse.
pub open spec fn stored(text: Seq<char>) -> Seq<Entry> {
    match parsed(text) {
        Ok(es) => es,
        Err(_) => Seq::empty(),
    }
}

/// The stream that the segments `segs` store together; nothing, if one of
/// them does not parse.
pub open spec fn all_entries(segs: Seq<SegmentView>) -> Seq<Entry> {
    match parsed_all(texts_of(segs)) {
        Ok(es) => es,
        Err(_) => Seq::empty(),
    }
}

/// Whether a segment is what a merge writes: its text parses, it holds a
/// record, and it is named by the key of its last record.
pub open spec fn sound_segment(seg: SegmentView) -> bool {
    parsed(seg.1) is Ok && stored(seg.1).len() > 0 && stored(seg.1).last().0 == seg.0
}

/// Whether `segs` are what a merge writes: each segment is sound, and the
/// keys ascend strictly through the whole generation, so that a key stands
/// in one segment at most.
pub open spec fn sound_generation(segs: Seq<SegmentView>) -> bool {
    &&& forall|i: int| 0 <= i < segs.len() ==> sound_segment(#[trigger] segs[i])
    &&& ascending(all_entries(segs))
}

/// Where the first boundary that is not below `key` stands in
/// `boundaries`; their number, if all are below.
pub open spec fn route(boundaries: Seq<u32>, key: u32) -> int
    decreases boundaries.len(),
{
    if boundaries.len() == 0 || boundaries[0] >= key {
        0
    } else {
        1 + route(boundaries.drop_first(), key)
    }
}

/// A mapping read from two runs, one after the other, is the mapping of
/// the first with that of the second laid over it.
pub proof fn lemma_as_map_concat(a: Seq<Entry>, b: Seq<Entry>)
    ensures
        as_map(a + b) == as_map(a).union_prefer_right(as_map(b)),
    decreases b.len(),
{
    if b.len() == 0 {
        assert(a + b =~= a);
        assert(as_map(a).union_prefer_right(as_map(b)) =~= as_map(a));
    } else {
        assert((a + b).drop_last() =~= a + b.drop_last());
        assert((a + b).last() == b.last());
        lemma_as_map_concat(a, b.drop_last());
        assert(as_map(a + b) =~= as_map(a).union_prefer_right(as_map(b)));
    }
}

/// Where the segments are sound, their stream is that of the first
/// segment followed by that of the others.
pub proof fn lemma_all_entries_front(segs: Seq<SegmentView>)
    requires
        segs.len() > 0,
        forall|i: int| 0 <= i < segs.len() ==> sound_segment(#[trigger] segs[i]),
    ensures
        parsed_all(texts_of(segs)) is Ok,
        all_entries(segs) == stored(segs[0].1) + all_entries(segs.drop_first()),
        forall|i: int|
            0 <= i < segs.drop_first().len() ==> sound_segment(#[trigger] segs.drop_first()[i]),
    decreases segs.len(),
{
    let rest = segs.drop_first();
    assert forall|i: int| 0 <= i < rest.len() implies sound_segment(#[trigger] rest[i]) by {
        assert(rest[i] == segs[i + 1]);
    }
    assert(texts_of(segs).drop_first() =~= texts_of(rest));
    assert(texts_of(segs)[0] == segs[0].1);
    assert(sound_segment(segs[0]));
    if rest.len() > 0 {
        lemma_all_entries_front(rest);
    }
}

/// The texts of sound segments parse, one after the other.
pub proof fn lemma_sound_parses(segs: Seq<SegmentView>)
    requires
        forall|i: int| 0 <= i < segs.len() ==> sound_segment(#[trigger] segs[i]),
    ensures
        parsed_all(texts_of(segs)) is Ok,
        parsed_all(texts_of(segs)) == Ok::<Seq<Entry>, DecodeError>(all_entries(segs)),
{
    if segs.len() == 0 {
        assert(texts_of(segs) =~= Seq::<Seq<char>>::empty());
    } else {
        lemma_all_entries_front(segs);
    }
}

/// What the parts of an ascending run are: each ascends, and every key of
/// the first part is below every key of the second.
pub proof fn lemma_ascending_concat(a: Seq<Entry>, b: Seq<Entry>)
    requires
        ascending(a + b),
    ensures
        ascending(a),
        ascending(b),
        forall|i: int, j: int| 0 <= i < a.len() && 0 <= j < b.len() ==> a[i].0 < b[j].0,
{
    let all = a + b;
    assert forall|i: int, j: int| 0 <= i < j < a.len() implies a[i].0 < a[j].0 by {
        assert(all[i] == a[i] && all[j] == a[j]);
    }
    assert forall|i: int, j: int| 0 <= i < j < b.len() implies b[i].0 < b[j].0 by {
        assert(all[a.len() + i] == b[i] && all[a.len() + j] == b[j]);
    }
    assert forall|i: int, j: int| 0 <= i < a.len() && 0 <= j < b.len() implies a[i].0
        < b[j].0 by {
        assert(all[i] == a[i] && all[a.len() + j] == b[j]);
    }
}

/// In a sound generation a key is found by its boundary: the first segment
/// whose identifier is not below the key holds whatever the generation
/// holds under that key, and where every identifier is below the key the
/// generation does not hold it.
pub proof fn lemma_route(segs: Seq<SegmentView>, key: u32)
    requires
        sound_generation(segs),
    ensures
        0 <= route(ids_of(segs), key) <= segs.len(),
        route(ids_of(segs), key) < segs.len() ==> value_at(as_map(all_entries(segs)), key)
            == value_at(as_map(stored(segs[route(ids_of(segs), key)].1)), key),
        route(ids_of(segs), key) == segs.len() ==> value_at(as_map(all_entries(segs)), key)
            is None,
    decreases segs.len(),
{
    let ids = ids_of(segs);
    if segs.len() == 0 {
        assert(texts_of(segs) =~= Seq::<Seq<char>>::empty());
    } else {
        let rest = segs.drop_first();
        let first = stored(segs[0].1);
        let others = all_entries(rest);
        lemma_all_entries_front(segs);
        lemma_ascending_concat(first, others);
        lemma_as_map_concat(first, others);
        lemma_as_map_keys(first);
        lemma_as_map_keys(others);
        assert(sound_segment(segs[0]));
        assert(ids[0] == segs[0].0);
        assert(ids.drop_first() =~= ids_of(rest));
        if ids[0] >= key {
            if as_map(others).contains_key(key) {
                let j = choose|j: int| 0 <= j < others.len() && (#[trigger] others[j]).0 == key;
                assert(first[first.len() - 1].0 < others[j].0);
            }
        } else {
            if as_map(first).contains_key(key) {
                let j = choose|j: int| 0 <= j < first.len() && (#[trigger] first[j]).0 == key;
                if j < first.len() - 1 {
                    assert(first[j].0 < first[first.len() - 1].0);
                }
            }
            lemma_route(rest, key);
            let r = route(ids_of(rest), key);
            if r < rest.len() {
                assert(rest[r] == segs[r + 1]);
            }
        }
    }
}

/// Whatever a generation stores fits on one line, value by value.
pub proof fn lemma_parsed_all_single_line(texts: Seq<Seq<char>>)
    requires
        parsed_all(texts) is Ok,
    ensures
        all_single_line(parsed_all(texts)->Ok_0),
    decreases texts.len(),
{
    if texts.len() == 0 {
    } else {
        let first = parsed(texts[0])->Ok_0;
        let rest = parsed_all(texts.drop_first())->Ok_0;
        lemma_parsed_single_line(texts[0]);
        lemma_parsed_all_single_line(texts.drop_first());
        let all = first + rest;
        assert forall|i: int| 0 <= i < all.len() implies single_line(
            #[trigger] all[i].1,
        ) by {
            if i < first.len() {
                assert(all[i] == first[i]);
            } else {
                assert(all[i] == rest[i - first.len()]);
            }
        }
    }
}

/// In a sound generation the keys of every segment ascend, and none of
/// them is above the identifier of the segment.
pub proof fn lemma_segments_ascending(segs: Seq<SegmentView>)
    requires
        sound_generation(segs),
    ensures
        forall|i: int| 0 <= i < segs.len() ==> ascending(stored(#[trigger] segs[i].1)),
        forall|i: int, j: int|
            0 <= i < segs.len() && 0 <= j < stored(segs[i].1).len() ==> (#[trigger] stored(
                segs[i].1,
            )[j]).0 <= segs[i].0,
    decreases segs.len(),
{
    if segs.len() == 0 {
    } else {
        let rest = segs.drop_first();
        let first = stored(segs[0].1);
        let others = all_entries(rest);
        lemma_all_entries_front(segs);
        lemma_ascending_concat(first, others);
        lemma_segments_ascending(rest);
        assert(sound_segment(segs[0]));
        assert forall|i: int| 0 <= i < segs.len() implies ascending(
            stored(#[trigger] segs[i].1),
        ) by {
            if i > 0 {
                assert(segs[i] == rest[i - 1]);
            }
        }
        assert forall|i: int, j: int|
            0 <= i < segs.len() && 0 <= j < stored(segs[i].1).len() implies (#[trigger] stored(
            segs[i].1,
        )[j]).0 <= segs[i].0 by {
            if i > 0 {
                assert(segs[i] == rest[i - 1]);
            } else {
                if j < first.len() - 1 {
                    assert(first[j].0 < first[first.len() - 1].0);
                }
            }
        }
    }
}

/// The identifiers of a sound generation ascend strictly.
pub proof fn lemma_ids_ascending(segs: Seq<SegmentView>)
    requires
        sound_generation(segs),
    ensures
        forall|i: int, j: int| 0 <= i < j < segs.len() ==> segs[i].0 < segs[j].0,
    decreases segs.len(),
{
    if segs.len() == 0 {
    } else {
        let rest = segs.drop_first();
        let first = stored(segs[0].1);
        let others = all_entries(rest);
        lemma_all_entries_front(segs);
        lemma_ascending_concat(first, others);
        lemma_ids_ascending(rest);
        assert forall|i: int, j: int| 0 <= i < j < segs.len() implies segs[i].0 < segs[j].0 by {
            assert(segs[j] == rest[j - 1]);
            if i == 0 {
                lemma_last_entry(rest, j - 1);
                assert(sound_segment(segs[0]));
            } else {
                assert(segs[i] == rest[i - 1]);
            }
        }
    }
}

/// The record that names a sound segment stands in the stream of its
/// generation.
pub proof fn lemma_last_entry(segs: Seq<SegmentView>, k: int)
    requires
        0 <= k < segs.len(),
        forall|i: int| 0 <= i < segs.len() ==> sound_segment(#[trigger] segs[i]),
    ensures
        exists|p: int| 0 <= p < all_entries(segs).len() && (#[trigger] all_entries(segs)[p]).0
            == segs[k].0,
    decreases segs.len(),
{
    let rest = segs.drop_first();
    let first = stored(segs[0].1);
    let others = all_entries(rest);
    let all = all_entries(segs);
    lemma_all_entries_front(segs);
    assert(sound_segment(segs[k]));
    if k == 0 {
        assert(all[first.len() - 1].0 == segs[0].0);
    } else {
        lemma_last_entry(rest, k - 1);
        let p = choose|p: int| 0 <= p < others.len() && (#[trigger] others[p]).0 == rest[k - 1].0;
        assert(rest[k - 1] == segs[k]);
        assert(all[first.len() + p] == others[p]);
    }
}

/// Texts that parse into the runs `cs`, one each, store together the runs
/// one after the other.
pub proof fn lemma_parsed_all_runs(texts: Seq<Seq<char>>, cs: Seq<Seq<Entry>>)
    requires
        texts.len() == cs.len(),
        forall|k: int|
            0 <= k < texts.len() ==> parsed(#[trigger] texts[k]) == Ok::<
                Seq<Entry>,
                DecodeError,
            >(cs[k]),
    ensures
        parsed_all(texts) == Ok::<Seq<Entry>, DecodeError>(cs.flatten()),
    decreases texts.len(),
{
    if texts.len() == 0 {
        assert(cs.flatten() =~= Seq::<Entry>::empty());
    } else {
        let t = texts.drop_first();
        let c = cs.drop_first();
        assert forall|k: int| 0 <= k < t.len() implies parsed(#[trigger] t[k]) == Ok::<
            Seq<Entry>,
            DecodeError,
        >(c[k]) by {
            assert(t[k] == texts[k + 1]);
            assert(c[k] == cs[k + 1]);
        }
        lemma_parsed_all_runs(t, c);
        assert(parsed(texts[0]) == Ok::<Seq<Entry>, DecodeError>(cs[0]));
        assert(cs.flatten() == cs.first() + c.flatten());
    }
}

/// The segments cut from an ascending stream whose values fit on one line
/// are a sound generation, and they store that stream.
pub proof fn lemma_split_sound(es: Seq<Entry>, threshold: nat)
    requires
        ascending(es),
        all_single_line(es),
    ensures
        sound_generation(split(es, threshold)),
        all_entries(split(es, threshold)) == es,
{
    let segs = split(es, threshold);
    let cs = chunks(es, Seq::empty(), threshold);
    lemma_split_stores(es, threshold);
    let texts = texts_of(segs);
    assert forall|k: int| 0 <= k < texts.len() implies parsed(#[trigger] texts[k]) == Ok::<
        Seq<Entry>,
        DecodeError,
    >(cs[k]) by {
        assert(texts[k] == segs[k].1);
    }
    lemma_parsed_all_runs(texts, cs);
    assert forall|i: int| 0 <= i < segs.len() implies sound_segment(#[trigger] segs[i]) by {
        assert(parsed(segs[i].1) == Ok::<Seq<Entry>, DecodeError>(cs[i]));
    }
}

/// Parses the texts of a generation, in their order, into one stream of
/// records.
pub fn read_segments(texts: &Vec<String>) -> (r: Result<Vec<Record>, DecodeError>)
    ensures
        match r {
            Ok(records) => parsed_all(text_views(texts@)) == Ok::<Seq<Entry>, DecodeError>(
                entries(records@),
            ),
            Err(e) => parsed_all(text_views(texts@)) == Err::<Seq<Entry>, DecodeError>(e),
        },
{
    let ghost all = text_views(texts@);
    let mut records: Vec<Record> = Vec::new();
    let mut i: usize = 0;
    proof {
        assert(all.skip(0) =~= all);
        if let Ok(rest) = parsed_all(all) {
            assert(entries(records@) + rest =~= rest);
        }
    }
    while i < texts.len()
        invariant
            i <= texts.len(),
            all == text_views(texts@),
            parsed_all(all) == put_front(entries(records@), parsed_all(all.skip(i as int))),
        decreases texts.len() - i,
    {
        let ghost tail = all.skip(i as int);
        proof {
            assert(tail[0] == texts@[i as int]@);
            assert(tail.drop_first() =~= all.skip(i + 1));
        }
        match parse_segment(texts[i].as_str()) {
            Err(e) => {
                return Err(e);
            },
            Ok(found) => {
                let mut found = found;
                proof {
                    let before = entries(records@);
                    let more = entries(found@);
                    assert(entries(records@ + found@) =~= before + more);
                    if let Ok(rest) = parsed_all(all.skip(i + 1)) {
                        assert(before + (more + rest) =~= (before + more) + rest);
                    }
                }
                records.append(&mut found);
            },
        }
        i = i + 1;
    }
    proof {
        assert(all.skip(i as int) =~= Seq::<Seq<char>>::empty());
        assert(entries(records@) + Seq::<Entry>::empty() =~= entries(records@));
    }
    Ok(records)
}

/// One merge pass: merges the newer records with what the texts of the
/// current generation store, and cuts the result into the segments of the
/// next generation. A text that does not parse stops the pass.
pub fn merge_generation(newer: &Vec<Record>, texts: &Vec<String>, threshold: usize) -> (r:
    Result<Vec<Segment>, DecodeError>)
    ensures
        match r {
            Ok(segments) => parsed_all(text_views(texts@)) is Ok && segment_views(segments@)
                == split(
                merged(entries(newer@), parsed_all(text_views(texts@))->Ok_0),
                threshold as nat,
            ),
            Err(e) => parsed_all(text_views(texts@)) == Err::<Seq<Entry>, DecodeError>(e),
        },
{
    match read_segments(texts) {
        Err(e) => Err(e),
        Ok(older) => {
            let all = merge_records(newer, &older);
            Ok(split_segments(&all, threshold))
        },
    }
}

/// Where the first boundary that is not below `key` stands in
/// `boundaries`, if there is one.
pub fn locate(boundaries: &Vec<u32>, key: u32) -> (r: Option<usize>)
    ensures
        match r {
            Some(i) => i == route(boundaries@, key) && i < boundaries.len(),
            None => route(boundaries@, key) == boundaries.len(),
        },
{
    let mut i: usize = 0;
    proof {
        assert(boundaries@.skip(0) =~= boundaries@);
    }
    while i < boundaries.len()
        invariant
            i <= boundaries.len(),
            route(boundaries@, key) == i + route(boundaries@.skip(i as int), key),
        decreases boundaries.len() - i,
    {
        let ghost tail = boundaries@.skip(i as int);
        proof {
            assert(tail[0] == boundaries[i as int]);
            assert(tail.drop_first() =~= boundaries@.skip(i + 1));
        }
        if boundaries[i] >= key {
            return Some(i);
        }
        i = i + 1;
    }
    proof {
        assert(boundaries@.skip(i as int).len() == 0);
    }
    None
}

} // verus!
