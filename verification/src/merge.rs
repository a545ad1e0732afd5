//! The merge engine: an ordered two-way merge in which the newer stream
//! shadows the older one, and the cut of the merged stream into
//! size-bounded segments.

use crate::codec::{append_record, encoded, single_line, DecodeError, Record};
use crate::segment::{
    all_single_line, as_map, ascending, encoded_all, entries, lemma_as_map_ascending,
    lemma_as_map_keys, lemma_encoded_all_len, lemma_encoded_all_push, lemma_parse_encoded, parsed,
    segment_views, Entry, Segment,
};
use vstd::prelude::*;
use vstd::utf8::encode_utf8;

verus! {

/// Whether some entry of `es` has the key `key`.
pub open spec fn has_key(es: Seq<Entry>, key: u32) -> bool {
    exists|i: int| 0 <= i < es.len() && (#[trigger] es[i]).0 == key
}

/// The merge of the newer stream `m` with the older stream `s`. The entry
/// with the smaller key goes out first; of two entries with the same key the
/// newer one goes out and the older one is dropped; when one stream has run
/// out, the rest of the other follows.
pub open spec fn merged(m: Seq<Entry>, s: Seq<Entry>) -> Seq<Entry>
    decreases m.len() + s.len(),
{
    if m.len() == 0 {
        s
    } else if s.len() == 0 {
        m
    } else if m[0].0 < s[0].0 {
        seq![m[0]] + merged(m.drop_first(), s)
    } else if m[0].0 > s[0].0 {
        seq![s[0]] + merged(m, s.drop_first())
    } else {
        seq![m[0]] + merged(m.drop_first(), s.drop_first())
    }
}

/// Every entry of a merge comes from one of the two streams.
pub proof fn lemma_merged_origin(m: Seq<Entry>, s: Seq<Entry>)
    ensures
        forall|i: int|
            0 <= i < merged(m, s).len() ==> m.contains(#[trigger] merged(m, s)[i]) || s.contains(
                merged(m, s)[i],
            ),
    decreases m.len() + s.len(),
{
    let out = merged(m, s);
    if m.len() == 0 || s.len() == 0 {
    } else {
        let (m2, s2) = if m[0].0 < s[0].0 {
            (m.drop_first(), s)
        } else if m[0].0 > s[0].0 {
            (m, s.drop_first())
        } else {
            (m.drop_first(), s.drop_first())
        };
        lemma_merged_origin(m2, s2);
        let rest = merged(m2, s2);
        assert forall|i: int| 0 <= i < out.len() implies m.contains(#[trigger] out[i])
            || s.contains(out[i]) by {
            if i == 0 {
                assert(m[0] == out[0] || s[0] == out[0]);
            } else {
                assert(out[i] == rest[i - 1]);
                if m2.contains(rest[i - 1]) {
                    let j = choose|j: int| 0 <= j < m2.len() && m2[j] == rest[i - 1];
                    if m2.len() < m.len() {
                        assert(m[j + 1] == rest[i - 1]);
                    } else {
                        assert(m[j] == rest[i - 1]);
                    }
                } else {
                    let j = choose|j: int| 0 <= j < s2.len() && s2[j] == rest[i - 1];
                    if s2.len() < s.len() {
                        assert(s[j + 1] == rest[i - 1]);
                    } else {
                        assert(s[j] == rest[i - 1]);
                    }
                }
            }
        }
    }
}

/// What is left of an ascending stream after its first entry ascends.
pub proof fn lemma_ascending_tail(es: Seq<Entry>)
    requires
        ascending(es),
        es.len() > 0,
    ensures
        ascending(es.drop_first()),
{
    let tail = es.drop_first();
    assert forall|i: int, j: int| 0 <= i < j < tail.len() implies tail[i].0 < tail[j].0 by {
        assert(es[i + 1].0 < es[j + 1].0);
    }
}

/// The merge of two ascending streams ascends, so that it holds no key
/// twice.
pub proof fn lemma_merged_ascending(m: Seq<Entry>, s: Seq<Entry>)
    requires
        ascending(m),
        ascending(s),
    ensures
        ascending(merged(m, s)),
    decreases m.len() + s.len(),
{
    let out = merged(m, s);
    if m.len() == 0 || s.len() == 0 {
    } else {
        let (m2, s2) = if m[0].0 < s[0].0 {
            (m.drop_first(), s)
        } else if m[0].0 > s[0].0 {
            (m, s.drop_first())
        } else {
            (m.drop_first(), s.drop_first())
        };
        lemma_ascending_tail(m);
        lemma_ascending_tail(s);
        lemma_merged_ascending(m2, s2);
        lemma_merged_origin(m2, s2);
        let rest = merged(m2, s2);
        assert forall|i: int, j: int| 0 <= i < j < out.len() implies out[i].0 < out[j].0 by {
            assert(out[j] == rest[j - 1]);
            if i == 0 {
                if m2.contains(rest[j - 1]) {
                    let k = choose|k: int| 0 <= k < m2.len() && m2[k] == rest[j - 1];
                    if m2.len() < m.len() {
                        assert(m[0].0 < m[k + 1].0);
                    } else {
                        assert(m[0].0 <= m[k].0);
                    }
                } else {
                    let k = choose|k: int| 0 <= k < s2.len() && s2[k] == rest[j - 1];
                    if s2.len() < s.len() {
                        assert(s[0].0 < s[k + 1].0);
                    } else {
                        assert(s[0].0 <= s[k].0);
                    }
                }
            } else {
                assert(out[i] == rest[i - 1]);
            }
        }
    }
}

/// Which keys a merge of two ascending streams holds, and with what: every
/// key of the newer stream with the newer value, and every other key of the
/// older stream with the older value.
pub proof fn lemma_merged_map(m: Seq<Entry>, s: Seq<Entry>)
    requires
        ascending(m),
        ascending(s),
    ensures
        as_map(merged(m, s)) == as_map(s).union_prefer_right(as_map(m)),
    decreases m.len() + s.len(),
{
    let out = merged(m, s);
    lemma_merged_ascending(m, s);
    lemma_merged_members(m, s);
    lemma_as_map_keys(out);
    lemma_as_map_keys(m);
    lemma_as_map_keys(s);
    lemma_as_map_ascending(out);
    lemma_as_map_ascending(m);
    lemma_as_map_ascending(s);
    let want = as_map(s).union_prefer_right(as_map(m));
    assert forall|k: u32| as_map(out).contains_key(k) <==> want.contains_key(k) by {
        if as_map(out).contains_key(k) {
            let i = choose|i: int| 0 <= i < out.len() && (#[trigger] out[i]).0 == k;
            assert(out.contains(out[i]));
            if m.contains(out[i]) {
                let j = choose|j: int| 0 <= j < m.len() && m[j] == out[i];
                assert(m[j].0 == k);
            } else {
                let j = choose|j: int| 0 <= j < s.len() && s[j] == out[i];
                assert(s[j].0 == k);
            }
        }
        if want.contains_key(k) {
            if as_map(m).contains_key(k) {
                let j = choose|j: int| 0 <= j < m.len() && (#[trigger] m[j]).0 == k;
                assert(m.contains(m[j]));
                assert(out.contains(m[j]));
                let i = choose|i: int| 0 <= i < out.len() && out[i] == m[j];
                assert(out[i].0 == k);
            } else {
                let j = choose|j: int| 0 <= j < s.len() && (#[trigger] s[j]).0 == k;
                assert(s.contains(s[j]));
                assert(!has_key(m, k));
                assert(out.contains(s[j]));
                let i = choose|i: int| 0 <= i < out.len() && out[i] == s[j];
                assert(out[i].0 == k);
            }
        }
    }
    assert forall|k: u32| as_map(out).contains_key(k) implies as_map(out)[k] == want[k] by {
        let i = choose|i: int| 0 <= i < out.len() && (#[trigger] out[i]).0 == k;
        assert(as_map(out)[out[i].0] == out[i].1);
        assert(out.contains(out[i]));
        if m.contains(out[i]) {
            let j = choose|j: int| 0 <= j < m.len() && m[j] == out[i];
            assert(as_map(m)[m[j].0] == m[j].1);
        } else {
            let j = choose|j: int| 0 <= j < s.len() && s[j] == out[i];
            assert(as_map(s)[s[j].0] == s[j].1);
            assert(!has_key(m, k));
        }
    }
    assert(as_map(out) =~= want);
}

/// Which entries a merge of two ascending streams holds: those of the newer
/// stream, and those of the older stream whose key the newer one lacks.
pub proof fn lemma_merged_members(m: Seq<Entry>, s: Seq<Entry>)
    requires
        ascending(m),
        ascending(s),
    ensures
        forall|e: Entry|
            #![trigger merged(m, s).contains(e)]
            merged(m, s).contains(e) <==> m.contains(e) || (s.contains(e) && !has_key(m, e.0)),
    decreases m.len() + s.len(),
{
    let out = merged(m, s);
    if m.len() == 0 {
        assert forall|e: Entry| #![trigger out.contains(e)] out.contains(e) <==> m.contains(e) || (
        s.contains(e) && !has_key(m, e.0)) by {}
    } else if s.len() == 0 {
        assert forall|e: Entry| #![trigger out.contains(e)] out.contains(e) <==> m.contains(e) || (
        s.contains(e) && !has_key(m, e.0)) by {}
    } else {
        let (m2, s2) = if m[0].0 < s[0].0 {
            (m.drop_first(), s)
        } else if m[0].0 > s[0].0 {
            (m, s.drop_first())
        } else {
            (m.drop_first(), s.drop_first())
        };
        let head = out[0];
        lemma_ascending_tail(m);
        lemma_ascending_tail(s);
        lemma_merged_members(m2, s2);
        let rest = merged(m2, s2);
        assert(out =~= seq![head] + rest);
        assert forall|e: Entry| #![trigger out.contains(e)] out.contains(e) <==> m.contains(e) || (
        s.contains(e) && !has_key(m, e.0)) by {
            lemma_contains_front(head, rest, e);
            lemma_contains_front(m[0], m.drop_first(), e);
            lemma_contains_front(s[0], s.drop_first(), e);
            assert(m =~= seq![m[0]] + m.drop_first());
            assert(s =~= seq![s[0]] + s.drop_first());
            lemma_has_key_front(m, e.0);
            if m[0].0 < s[0].0 {
                // head is m[0]; the older stream is untouched
                if s.contains(e) && e.0 == m[0].0 {
                    let j = choose|j: int| 0 <= j < s.len() && s[j] == e;
                    assert(s[0].0 <= s[j].0);
                }
            } else if m[0].0 > s[0].0 {
                // head is s[0], whose key the newer stream lacks
                if has_key(m, s[0].0) {
                    let j = choose|j: int| 0 <= j < m.len() && (#[trigger] m[j]).0 == s[0].0;
                    assert(m[0].0 <= m[j].0);
                }
            } else {
                // head is m[0]; s[0] is shadowed
                assert(has_key(m, s[0].0));
                if s.contains(e) && !s.drop_first().contains(e) {
                    assert(e == s[0]);
                }
                if s.drop_first().contains(e) && e.0 == m[0].0 {
                    let j = choose|j: int|
                        0 <= j < s.drop_first().len() && s.drop_first()[j] == e;
                    assert(s[0].0 < s[j + 1].0);
                }
            }
        }
    }
}

/// What a run with one entry in front holds.
proof fn lemma_contains_front(head: Entry, rest: Seq<Entry>, e: Entry)
    ensures
        (seq![head] + rest).contains(e) <==> e == head || rest.contains(e),
{
    let all = seq![head] + rest;
    if all.contains(e) {
        let i = choose|i: int| 0 <= i < all.len() && all[i] == e;
        if i > 0 {
            assert(rest[i - 1] == e);
        }
    }
    if e == head {
        assert(all[0] == e);
    }
    if rest.contains(e) {
        let i = choose|i: int| 0 <= i < rest.len() && rest[i] == e;
        assert(all[i + 1] == e);
    }
}

/// Which keys a non-empty run has.
proof fn lemma_has_key_front(es: Seq<Entry>, key: u32)
    requires
        es.len() > 0,
    ensures
        has_key(es, key) <==> es[0].0 == key || has_key(es.drop_first(), key),
{
    let rest = es.drop_first();
    if has_key(es, key) {
        let i = choose|i: int| 0 <= i < es.len() && (#[trigger] es[i]).0 == key;
        if i > 0 {
            assert(rest[i - 1].0 == key);
        }
    }
    if has_key(rest, key) {
        let i = choose|i: int| 0 <= i < rest.len() && (#[trigger] rest[i]).0 == key;
        assert(es[i + 1].0 == key);
    }
}

/// Merges the newer records `newer` with the older records `older`.
pub fn merge_records(newer: &Vec<Record>, older: &Vec<Record>) -> (out: Vec<Record>)
    ensures
        entries(out@) == merged(entries(newer@), entries(older@)),
{
    let ghost m = entries(newer@);
    let ghost s = entries(older@);
    let mut out: Vec<Record> = Vec::new();
    let mut i: usize = 0;
    let mut j: usize = 0;
    proof {
        assert(m.skip(0) =~= m);
        assert(s.skip(0) =~= s);
        assert(entries(out@) + merged(m, s) =~= merged(m, s));
    }
    while i < newer.len() || j < older.len()
        invariant
            i <= newer.len(),
            j <= older.len(),
            m == entries(newer@),
            s == entries(older@),
            merged(m, s) == entries(out@) + merged(m.skip(i as int), s.skip(j as int)),
        decreases newer.len() - i + older.len() - j,
    {
        let ghost mi = m.skip(i as int);
        let ghost sj = s.skip(j as int);
        let ghost before = entries(out@);
        let take_newer: bool = j >= older.len() || (i < newer.len() && newer[i].key
            <= older[j].key);
        let drop_older: bool = i < newer.len() && j < older.len() && newer[i].key
            == older[j].key;
        proof {
            if i < newer.len() {
                assert(mi[0] == m[i as int]);
                assert(mi.drop_first() =~= m.skip(i + 1));
            }
            if j < older.len() {
                assert(sj[0] == s[j as int]);
                assert(sj.drop_first() =~= s.skip(j + 1));
            }
        }
        if take_newer {
            out.push(Record { key: newer[i].key, value: newer[i].value.clone() });
            proof {
                let rest = merged(
                    m.skip(i + 1),
                    if drop_older {
                        s.skip(j + 1)
                    } else {
                        sj
                    },
                );
                assert(entries(out@) =~= before.push(m[i as int]));
                if j >= older.len() {
                    assert(sj.len() == 0);
                    lemma_merged_left_only(mi);
                    lemma_merged_left_only(m.skip(i + 1));
                    assert(mi =~= seq![m[i as int]] + m.skip(i + 1));
                }
                assert(merged(mi, sj) =~= seq![m[i as int]] + rest);
                assert(before + (seq![m[i as int]] + rest) =~= entries(out@) + rest);
            }
            i = i + 1;
            if drop_older {
                j = j + 1;
            }
        } else {
            out.push(Record { key: older[j].key, value: older[j].value.clone() });
            proof {
                let rest = merged(mi, s.skip(j + 1));
                assert(entries(out@) =~= before.push(s[j as int]));
                if i >= newer.len() {
                    assert(mi.len() == 0);
                    assert(sj =~= seq![s[j as int]] + s.skip(j + 1));
                }
                assert(merged(mi, sj) =~= seq![s[j as int]] + rest);
                assert(before + (seq![s[j as int]] + rest) =~= entries(out@) + rest);
            }
            j = j + 1;
        }
    }
    proof {
        assert(m.skip(i as int).len() == 0);
        assert(entries(out@) + Seq::<Entry>::empty() =~= entries(out@));
    }
    out
}

/// With nothing older to merge with, the newer stream goes out as it is.
proof fn lemma_merged_left_only(m: Seq<Entry>)
    ensures
        merged(m, Seq::<Entry>::empty()) == m,
{
}

/// How many bytes `text` takes as UTF-8.
pub open spec fn byte_len(text: Seq<char>) -> nat {
    encode_utf8(text).len()
}

/// The cut of the stream `es` into runs, one per segment, where `cur` holds
/// what the open run has taken so far. Each entry joins the open run; as
/// soon as the text of that run takes more than `threshold` bytes the run
/// is closed. What is left open at the end of the stream is closed there,
/// unless it is empty.
pub open spec fn chunks(es: Seq<Entry>, cur: Seq<Entry>, threshold: nat) -> Seq<Seq<Entry>>
    decreases es.len(),
{
    if es.len() == 0 {
        if cur.len() == 0 {
            Seq::empty()
        } else {
            seq![cur]
        }
    } else {
        let next = cur.push(es[0]);
        if byte_len(encoded_all(next)) > threshold {
            seq![next] + chunks(es.drop_first(), Seq::empty(), threshold)
        } else {
            chunks(es.drop_first(), next, threshold)
        }
    }
}

/// The segment that stores the run `chunk`: its text, under its last key.
pub open spec fn segment_of(chunk: Seq<Entry>) -> (u32, Seq<char>) {
    (chunk.last().0, encoded_all(chunk))
}

/// The segments that store the stream `es`, none of them larger than
/// `threshold` bytes before its last record joined it.
pub open spec fn split(es: Seq<Entry>, threshold: nat) -> Seq<(u32, Seq<char>)> {
    segments_of(chunks(es, Seq::empty(), threshold))
}

/// The segments that store the runs `cs`, one each.
pub open spec fn segments_of(cs: Seq<Seq<Entry>>) -> Seq<(u32, Seq<char>)> {
    cs.map_values(|c: Seq<Entry>| segment_of(c))
}

/// The bytes of two texts, one after the other, are the bytes of the one
/// and the bytes of the other.
pub proof fn lemma_byte_len_concat(a: Seq<char>, b: Seq<char>)
    ensures
        byte_len(a + b) == byte_len(a) + byte_len(b),
    decreases a.len(),
{
    if a.len() == 0 {
        assert(a + b =~= b);
    } else {
        assert((a + b).drop_first() =~= a.drop_first() + b);
        assert((a + b)[0] == a[0]);
        lemma_byte_len_concat(a.drop_first(), b);
    }
}

/// The runs of a cut are not empty, they hold the stream in its order, and
/// nothing else.
pub proof fn lemma_chunks_flatten(es: Seq<Entry>, cur: Seq<Entry>, threshold: nat)
    ensures
        chunks(es, cur, threshold).flatten() == cur + es,
        forall|k: int|
            0 <= k < chunks(es, cur, threshold).len() ==> (#[trigger] chunks(
                es,
                cur,
                threshold,
            )[k]).len() > 0,
    decreases es.len(),
{
    let cs = chunks(es, cur, threshold);
    if es.len() == 0 {
        if cur.len() == 0 {
            assert(cur + es =~= Seq::<Entry>::empty());
        } else {
            assert(cs =~= seq![cur]);
            assert(cs.first() == cur);
            assert(cs.drop_first() =~= Seq::<Seq<Entry>>::empty());
            assert(cs.drop_first().flatten() =~= Seq::<Entry>::empty());
            assert(cs.flatten() =~= cur + es);
        }
    } else {
        let next = cur.push(es[0]);
        let rest = es.drop_first();
        if byte_len(encoded_all(next)) > threshold {
            lemma_chunks_flatten(rest, Seq::empty(), threshold);
            let tail = chunks(rest, Seq::empty(), threshold);
            assert(cs.drop_first() =~= tail);
            assert(cs.flatten() =~= cur + es);
            assert forall|k: int| 0 <= k < cs.len() implies (#[trigger] cs[k]).len() > 0 by {
                if k > 0 {
                    assert(cs[k] == tail[k - 1]);
                }
            }
        } else {
            lemma_chunks_flatten(rest, next, threshold);
            assert(next + rest =~= cur + es);
        }
    }
}

/// Where every value fits on one line, so does every value of every run of
/// a cut.
pub proof fn lemma_chunks_single_line(es: Seq<Entry>, cur: Seq<Entry>, threshold: nat)
    requires
        all_single_line(es),
        all_single_line(cur),
    ensures
        forall|k: int|
            0 <= k < chunks(es, cur, threshold).len() ==> all_single_line(
                #[trigger] chunks(es, cur, threshold)[k],
            ),
    decreases es.len(),
{
    let cs = chunks(es, cur, threshold);
    if es.len() == 0 {
        assert forall|k: int| 0 <= k < cs.len() implies all_single_line(#[trigger] cs[k]) by {
            assert(cs[k] == cur);
        }
    } else {
        let next = cur.push(es[0]);
        let rest = es.drop_first();
        assert(all_single_line(next)) by {
            assert forall|i: int| 0 <= i < next.len() implies single_line(
                #[trigger] next[i].1,
            ) by {
                if i < cur.len() {
                    assert(next[i] == cur[i]);
                }
            }
        }
        assert(all_single_line(rest)) by {
            assert forall|i: int| 0 <= i < rest.len() implies single_line(
                #[trigger] rest[i].1,
            ) by {
                assert(rest[i] == es[i + 1]);
            }
        }
        if byte_len(encoded_all(next)) > threshold {
            lemma_chunks_single_line(rest, Seq::empty(), threshold);
            let tail = chunks(rest, Seq::empty(), threshold);
            assert(cs == seq![next] + tail);
            assert forall|k: int| 0 <= k < cs.len() implies all_single_line(#[trigger] cs[k]) by {
                if k > 0 {
                    assert(cs[k] == tail[k - 1]);
                } else {
                    assert(cs[k] == next);
                }
            }
        } else {
            lemma_chunks_single_line(rest, next, threshold);
            assert(cs == chunks(rest, next, threshold));
        }
    }
}

/// The size of the runs of a cut: every run but the last takes more than
/// `threshold` bytes, and no run did so before its last entry joined it.
pub proof fn lemma_chunks_bounded(es: Seq<Entry>, cur: Seq<Entry>, threshold: nat)
    requires
        byte_len(encoded_all(cur)) <= threshold,
    ensures
        forall|k: int|
            0 <= k < chunks(es, cur, threshold).len() ==> byte_len(
                encoded_all((#[trigger] chunks(es, cur, threshold)[k]).drop_last()),
            ) <= threshold,
        forall|k: int|
            0 <= k < chunks(es, cur, threshold).len() - 1 ==> byte_len(
                encoded_all(#[trigger] chunks(es, cur, threshold)[k]),
            ) > threshold,
    decreases es.len(),
{
    let cs = chunks(es, cur, threshold);
    if es.len() == 0 {
        if cur.len() > 0 {
            lemma_encoded_all_push(cur.drop_last(), cur.last());
            assert(cur.drop_last().push(cur.last()) =~= cur);
            lemma_byte_len_concat(
                encoded_all(cur.drop_last()),
                encoded(cur.last().0, cur.last().1),
            );
            assert forall|k: int| 0 <= k < cs.len() implies byte_len(
                encoded_all((#[trigger] cs[k]).drop_last()),
            ) <= threshold by {
                assert(cs[k] == cur);
            }
        }
    } else {
        let next = cur.push(es[0]);
        let rest = es.drop_first();
        if byte_len(encoded_all(next)) > threshold {
            assert(encoded_all(Seq::<Entry>::empty()) =~= Seq::<char>::empty());
            lemma_chunks_bounded(rest, Seq::empty(), threshold);
            let tail = chunks(rest, Seq::empty(), threshold);
            assert(cs == seq![next] + tail);
            assert(next.drop_last() =~= cur);
            assert forall|k: int| 0 <= k < cs.len() implies byte_len(
                encoded_all((#[trigger] cs[k]).drop_last()),
            ) <= threshold by {
                if k > 0 {
                    assert(cs[k] == tail[k - 1]);
                } else {
                    assert(cs[k] == next);
                }
            }
            assert forall|k: int| 0 <= k < cs.len() - 1 implies byte_len(
                encoded_all(#[trigger] cs[k]),
            ) > threshold by {
                if k > 0 {
                    assert(cs[k] == tail[k - 1]);
                } else {
                    assert(cs[k] == next);
                }
            }
        } else {
            lemma_chunks_bounded(rest, next, threshold);
            assert(cs == chunks(rest, next, threshold));
        }
    }
}

/// The size of the segments of a stream: each takes at most `threshold`
/// bytes and the bytes of its last record, and each but the last takes more
/// than `threshold` bytes.
pub proof fn lemma_split_bounded(es: Seq<Entry>, threshold: nat)
    ensures
        split(es, threshold).len() == chunks(es, Seq::empty(), threshold).len(),
        forall|k: int|
            #![trigger split(es, threshold)[k]]
            0 <= k < split(es, threshold).len() ==> {
                let last = chunks(es, Seq::empty(), threshold)[k].last();
                byte_len(split(es, threshold)[k].1) <= threshold + byte_len(
                    encoded(last.0, last.1),
                )
            },
        forall|k: int|
            #![trigger split(es, threshold)[k]]
            0 <= k < split(es, threshold).len() - 1 ==> byte_len(split(es, threshold)[k].1)
                > threshold,
{
    let cs = chunks(es, Seq::empty(), threshold);
    assert(encoded_all(Seq::<Entry>::empty()) =~= Seq::<char>::empty());
    lemma_chunks_bounded(es, Seq::empty(), threshold);
    lemma_chunks_flatten(es, Seq::empty(), threshold);
    assert forall|k: int| #![trigger split(es, threshold)[k]] 0 <= k < split(
        es,
        threshold,
    ).len() implies {
        let last = cs[k].last();
        byte_len(split(es, threshold)[k].1) <= threshold + byte_len(encoded(last.0, last.1))
    } by {
        let c = cs[k];
        assert(c.len() > 0);
        assert(c.drop_last().push(c.last()) =~= c);
        lemma_encoded_all_push(c.drop_last(), c.last());
        lemma_byte_len_concat(encoded_all(c.drop_last()), encoded(c.last().0, c.last().1));
    }
    assert forall|k: int| #![trigger split(es, threshold)[k]] 0 <= k < split(
        es,
        threshold,
    ).len() - 1 implies byte_len(split(es, threshold)[k].1) > threshold by {
        assert(byte_len(encoded_all(cs[k])) > threshold);
    }
}

/// What the segments of a stream store, where every value fits on one
/// line: each segment parses into its own run, which is not empty and ends
/// with the key that names the segment; and the runs, one after the other,
/// are the stream.
pub proof fn lemma_split_stores(es: Seq<Entry>, threshold: nat)
    requires
        all_single_line(es),
    ensures
        split(es, threshold).len() == chunks(es, Seq::empty(), threshold).len(),
        chunks(es, Seq::empty(), threshold).flatten() == es,
        forall|k: int|
            #![trigger split(es, threshold)[k]]
            0 <= k < split(es, threshold).len() ==> {
                let chunk = chunks(es, Seq::empty(), threshold)[k];
                &&& parsed(split(es, threshold)[k].1) == Ok::<Seq<Entry>, DecodeError>(chunk)
                &&& chunk.len() > 0
                &&& split(es, threshold)[k].0 == chunk.last().0
            },
{
    let cs = chunks(es, Seq::empty(), threshold);
    lemma_chunks_flatten(es, Seq::empty(), threshold);
    lemma_chunks_single_line(es, Seq::empty(), threshold);
    assert(Seq::<Entry>::empty() + es =~= es);
    assert forall|k: int| #![trigger split(es, threshold)[k]] 0 <= k < split(
        es,
        threshold,
    ).len() implies {
        let chunk = cs[k];
        &&& parsed(split(es, threshold)[k].1) == Ok::<Seq<Entry>, DecodeError>(chunk)
        &&& chunk.len() > 0
        &&& split(es, threshold)[k].0 == chunk.last().0
    } by {
        assert(all_single_line(cs[k]));
        lemma_parse_encoded(cs[k]);
    }
}

/// One more segment for one more run.
proof fn lemma_segments_push(
    segments: Seq<Segment>,
    segment: Segment,
    done: Seq<Seq<Entry>>,
    chunk: Seq<Entry>,
)
    requires
        segment_views(segments) == segments_of(done),
        segment@ == segment_of(chunk),
    ensures
        segment_views(segments.push(segment)) == segments_of(done.push(chunk)),
{
    let a = segment_views(segments.push(segment));
    let b = segments_of(done.push(chunk));
    assert(segment_views(segments).len() == segments.len());
    assert(segments_of(done).len() == done.len());
    assert(a.len() == segments.len() + 1);
    assert(b.len() == done.len() + 1);
    assert forall|k: int| 0 <= k < a.len() implies a[k] == b[k] by {
        if k < segments.len() {
            assert(a[k] == segment_views(segments)[k]);
            assert(b[k] == segments_of(done)[k]);
        }
    }
    assert(a =~= b);
}

/// Cuts the records into segments: a segment is closed as soon as its text
/// takes more than `threshold` bytes, and what is left at the end makes the
/// last segment.
pub fn split_segments(records: &Vec<Record>, threshold: usize) -> (segments: Vec<Segment>)
    ensures
        segment_views(segments@) == split(entries(records@), threshold as nat),
{
    let ghost es = entries(records@);
    let ghost t = threshold as nat;
    let mut segments: Vec<Segment> = Vec::new();
    let mut buffer = String::new();
    let mut last_id: u32 = 0;
    let ghost mut done: Seq<Seq<Entry>> = Seq::empty();
    let ghost mut cur: Seq<Entry> = Seq::empty();
    let mut i: usize = 0;
    proof {
        assert(es.skip(0) =~= es);
        assert(done + chunks(es, cur, t) =~= chunks(es, cur, t));
        assert(segment_views(segments@) =~= segments_of(done));
    }
    while i < records.len()
        invariant
            i <= records.len(),
            es == entries(records@),
            t == threshold as nat,
            chunks(es, Seq::empty(), t) == done + chunks(es.skip(i as int), cur, t),
            segment_views(segments@) == segments_of(done),
            buffer@ == encoded_all(cur),
            cur.len() > 0 ==> last_id == cur.last().0,
        decreases records.len() - i,
    {
        let ghost e = es[i as int];
        let ghost rest = es.skip(i as int);
        let ghost next = cur.push(e);
        proof {
            assert(rest[0] == e);
            assert(rest.drop_first() =~= es.skip(i + 1));
            assert(e == records@[i as int]@);
            lemma_encoded_all_push(cur, e);
        }
        append_record(&mut buffer, records[i].key, records[i].value.as_str());
        last_id = records[i].key;
        if buffer.as_str().as_bytes().len() > threshold {
            proof {
                let tail = chunks(es.skip(i + 1), Seq::empty(), t);
                assert(done + (seq![next] + tail) =~= done.push(next) + tail);
                assert(next.last() == e);
                lemma_segments_push(
                    segments@,
                    Segment { id: last_id, content: buffer },
                    done,
                    next,
                );
                done = done.push(next);
                cur = Seq::empty();
            }
            segments.push(Segment { id: last_id, content: buffer });
            buffer = String::new();
        } else {
            proof {
                cur = next;
            }
        }
        i = i + 1;
    }
    proof {
        assert(es.skip(i as int).len() == 0);
        lemma_encoded_all_len(cur);
    }
    if !buffer.as_str().is_empty() {
        proof {
            assert(done + seq![cur] =~= done.push(cur));
            lemma_segments_push(segments@, Segment { id: last_id, content: buffer }, done, cur);
        }
        segments.push(Segment { id: last_id, content: buffer });
    } else {
        proof {
            assert(done + Seq::<Seq<Entry>>::empty() =~= done);
        }
    }
    segments
}

} // verus!
