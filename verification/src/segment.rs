//! Segment text: the records of a segment, one line each, and what such a
//! text stores.

use crate::codec::{
    append_record, chars_of, decode_range, decoded, delimiter, delimiter_at, encoded,
    first_delimiter, lemma_first_delimiter, lemma_has_first_delimiter, single_line, trim_newline,
    DecodeError, Record,
};
use crate::decimal::{decimal, is_digit, lemma_decimal_is_digits};
use vstd::prelude::*;

verus! {

/// A record as the contracts speak of it: the key and the value's characters.
pub type Entry = (u32, Seq<char>);

/// One segment: the text of its records, under the largest key among them.
#[derive(Debug, Clone, PartialEq, Eq)]
pub struct Segment {
    pub id: u32,
    pub content: String,
}

impl View for Segment {
    type V = (u32, Seq<char>);

    open spec fn view(&self) -> (u32, Seq<char>) {
        (self.id, self.content@)
    }
}

/// The identifiers and texts that a run of segments stands for.
pub open spec fn segment_views(segments: Seq<Segment>) -> Seq<(u32, Seq<char>)> {
    segments.map_values(|s: Segment| s@)
}

/// The entries that a run of records stands for.
pub open spec fn entries(records: Seq<Record>) -> Seq<Entry> {
    records.map_values(|r: Record| r@)
}

/// Whether the keys of `es` ascend strictly, so that no key occurs twice.
pub open spec fn ascending(es: Seq<Entry>) -> bool {
    forall|i: int, j: int| 0 <= i < j < es.len() ==> es[i].0 < es[j].0
}

/// Whether every value of `es` fits on one line.
pub open spec fn all_single_line(es: Seq<Entry>) -> bool {
    forall|i: int| 0 <= i < es.len() ==> single_line(#[trigger] es[i].1)
}

/// The mapping that `es` stands for when read front to back: a later entry
/// replaces an earlier one of the same key.
pub open spec fn as_map(es: Seq<Entry>) -> Map<u32, Seq<char>>
    decreases es.len(),
{
    if es.len() == 0 {
        Map::empty()
    } else {
        as_map(es.drop_last()).insert(es.last().0, es.last().1)
    }
}

/// What `m` holds under `key`, if anything.
pub open spec fn value_at(m: Map<u32, Seq<char>>, key: u32) -> Option<Seq<char>> {
    if m.contains_key(key) {
        Some(m[key])
    } else {
        None
    }
}

/// The text that stores `es`: their lines, one after the other.
pub open spec fn encoded_all(es: Seq<Entry>) -> Seq<char>
    decreases es.len(),
{
    if es.len() == 0 {
        Seq::empty()
    } else {
        encoded_all(es.drop_last()) + encoded(es.last().0, es.last().1)
    }
}

/// How many characters stand before the first line break of `text`; its
/// length, if it holds none.
pub open spec fn line_length(text: Seq<char>) -> nat
    decreases text.len(),
{
    if text.len() == 0 || text[0] == '\n' {
        0
    } else {
        1 + line_length(text.drop_first())
    }
}

/// What is left of `text` after its first line and the break that ends it.
pub open spec fn after_line(text: Seq<char>) -> Seq<char> {
    if line_length(text) < text.len() {
        text.skip(line_length(text) as int + 1)
    } else {
        Seq::empty()
    }
}

/// `r` with `e` put in front of what it holds, if it holds anything.
pub open spec fn put_first(e: Entry, r: Result<Seq<Entry>, DecodeError>) -> Result<
    Seq<Entry>,
    DecodeError,
> {
    match r {
        Ok(rest) => Ok(seq![e] + rest),
        Err(err) => Err(err),
    }
}

/// The entries that `text` stores, line by line. A line ends at a line
/// break or at the end of the text; the empty text stores nothing. The
/// first line that is no record decides the error.
pub open spec fn parsed(text: Seq<char>) -> Result<Seq<Entry>, DecodeError>
    decreases text.len(),
{
    if text.len() == 0 {
        Ok(Seq::empty())
    } else {
        match decoded(text.take(line_length(text) as int)) {
            Err(e) => Err(e),
            Ok(first) => put_first(first, parsed(after_line(text))),
        }
    }
}

/// The keys of the mapping that a run stands for are the keys of its
/// entries.
pub proof fn lemma_as_map_keys(es: Seq<Entry>)
    ensures
        as_map(es).dom().finite(),
        forall|k: u32|
            as_map(es).contains_key(k) <==> exists|i: int|
                0 <= i < es.len() && (#[trigger] es[i]).0 == k,
    decreases es.len(),
{
    if es.len() == 0 {
    } else {
        let init = es.drop_last();
        lemma_as_map_keys(init);
        assert forall|k: u32|
            as_map(es).contains_key(k) <==> exists|i: int|
                0 <= i < es.len() && (#[trigger] es[i]).0 == k by {
            if as_map(es).contains_key(k) {
                if k == es.last().0 {
                    assert(es[es.len() - 1].0 == k);
                } else {
                    let i = choose|i: int| 0 <= i < init.len() && (#[trigger] init[i]).0 == k;
                    assert(es[i].0 == k);
                }
            }
            if exists|i: int| 0 <= i < es.len() && (#[trigger] es[i]).0 == k {
                let i = choose|i: int| 0 <= i < es.len() && (#[trigger] es[i]).0 == k;
                if i < es.len() - 1 {
                    assert(init[i].0 == k);
                }
            }
        }
    }
}

/// Where the keys ascend, the mapping holds each entry's own value.
pub proof fn lemma_as_map_ascending(es: Seq<Entry>)
    requires
        ascending(es),
    ensures
        forall|i: int|
            0 <= i < es.len() ==> as_map(es).contains_key((#[trigger] es[i]).0) && as_map(
                es,
            )[es[i].0] == es[i].1,
    decreases es.len(),
{
    if es.len() == 0 {
    } else {
        let init = es.drop_last();
        lemma_as_map_ascending(init);
        assert forall|i: int| 0 <= i < es.len() implies as_map(es).contains_key(
            (#[trigger] es[i]).0,
        ) && as_map(es)[es[i].0] == es[i].1 by {
            if i < es.len() - 1 {
                assert(init[i] == es[i]);
                assert(es[i].0 < es[es.len() - 1].0);
            }
        }
    }
}

/// The ascending run that stands for the mapping `m`.
pub open spec fn stream_of(m: Map<u32, Seq<char>>) -> Seq<Entry> {
    choose|es: Seq<Entry>| ascending(es) && as_map(es) == m
}

/// Two ascending runs that stand for the same mapping are the same run.
pub proof fn lemma_ascending_unique(a: Seq<Entry>, b: Seq<Entry>)
    requires
        ascending(a),
        ascending(b),
        as_map(a) == as_map(b),
    ensures
        a == b,
    decreases a.len(),
{
    lemma_as_map_keys(a);
    lemma_as_map_keys(b);
    lemma_as_map_ascending(a);
    lemma_as_map_ascending(b);
    if a.len() == 0 {
        if b.len() > 0 {
            assert(as_map(b).contains_key(b[0].0));
        }
        assert(a =~= b);
    } else {
        assert(as_map(a).contains_key(a[a.len() - 1].0));
        if b.len() == 0 {
            assert(!as_map(b).contains_key(a[a.len() - 1].0));
        }
        let la = a.last();
        let lb = b.last();
        let ia = a.drop_last();
        let ib = b.drop_last();
        assert(la.0 <= lb.0) by {
            let j = choose|j: int| 0 <= j < b.len() && (#[trigger] b[j]).0 == la.0;
            if j < b.len() - 1 {
                assert(b[j].0 < b[b.len() - 1].0);
            }
        }
        assert(lb.0 <= la.0) by {
            assert(as_map(b).contains_key(b[b.len() - 1].0));
            let j = choose|j: int| 0 <= j < a.len() && (#[trigger] a[j]).0 == lb.0;
            if j < a.len() - 1 {
                assert(a[j].0 < a[a.len() - 1].0);
            }
        }
        assert(as_map(a)[a[a.len() - 1].0] == a[a.len() - 1].1);
        assert(as_map(b)[b[b.len() - 1].0] == b[b.len() - 1].1);
        assert(la == lb);
        lemma_as_map_keys(ia);
        lemma_as_map_keys(ib);
        assert(!as_map(ia).contains_key(la.0)) by {
            if as_map(ia).contains_key(la.0) {
                let j = choose|j: int| 0 <= j < ia.len() && (#[trigger] ia[j]).0 == la.0;
                assert(a[j].0 < a[a.len() - 1].0);
            }
        }
        assert(!as_map(ib).contains_key(lb.0)) by {
            if as_map(ib).contains_key(lb.0) {
                let j = choose|j: int| 0 <= j < ib.len() && (#[trigger] ib[j]).0 == lb.0;
                assert(b[j].0 < b[b.len() - 1].0);
            }
        }
        assert(as_map(ia) =~= as_map(a).remove(la.0));
        assert(as_map(ib) =~= as_map(b).remove(lb.0));
        assert(ascending(ia)) by {
            assert forall|i: int, j: int| 0 <= i < j < ia.len() implies ia[i].0 < ia[j].0 by {
                assert(a[i].0 < a[j].0);
            }
        }
        assert(ascending(ib)) by {
            assert forall|i: int, j: int| 0 <= i < j < ib.len() implies ib[i].0 < ib[j].0 by {
                assert(b[i].0 < b[j].0);
            }
        }
        lemma_ascending_unique(ia, ib);
        assert(a =~= ia.push(la));
        assert(b =~= ib.push(lb));
    }
}

/// An ascending run is the stream of the mapping it stands for.
pub proof fn lemma_stream_of(es: Seq<Entry>)
    requires
        ascending(es),
    ensures
        stream_of(as_map(es)) == es,
{
    let chosen = stream_of(as_map(es));
    assert(ascending(chosen) && as_map(chosen) == as_map(es));
    lemma_ascending_unique(chosen, es);
}

/// The first line of `text` ends where the first line break stands.
pub proof fn lemma_line_length(text: Seq<char>, n: int)
    requires
        0 <= n <= text.len(),
        forall|i: int| 0 <= i < n ==> text[i] != '\n',
        n == text.len() || text[n] == '\n',
    ensures
        line_length(text) == n,
    decreases text.len(),
{
    if text.len() == 0 || text[0] == '\n' {
    } else {
        let rest = text.drop_first();
        assert forall|i: int| 0 <= i < n - 1 implies rest[i] != '\n' by {
            assert(rest[i] == text[i + 1]);
        }
        lemma_line_length(rest, n - 1);
    }
}

/// The first line of a text holds no line break and ends within the text.
pub proof fn lemma_line_length_bounds(text: Seq<char>)
    ensures
        line_length(text) <= text.len(),
        forall|i: int| 0 <= i < line_length(text) ==> text[i] != '\n',
        line_length(text) < text.len() ==> text[line_length(text) as int] == '\n',
    decreases text.len(),
{
    if text.len() == 0 || text[0] == '\n' {
    } else {
        let rest = text.drop_first();
        lemma_line_length_bounds(rest);
        assert forall|i: int| 0 <= i < line_length(text) implies text[i] != '\n' by {
            if i > 0 {
                assert(rest[i - 1] == text[i]);
            }
        }
        if line_length(text) < text.len() {
            assert(rest[line_length(rest) as int] == text[line_length(text) as int]);
        }
    }
}

/// The line of a record holds a single line break, at its end, if the
/// value fits on one line.
pub proof fn lemma_encoded_line(key: u32, value: Seq<char>)
    requires
        single_line(value),
    ensures
        encoded(key, value).len() >= 4,
        line_length(encoded(key, value)) == encoded(key, value).len() - 1,
{
    let digits = decimal(key as nat);
    let line = encoded(key, value);
    lemma_decimal_is_digits(key as nat);
    let n = line.len() - 1;
    assert forall|i: int| 0 <= i < n implies line[i] != '\n' by {
        if i < digits.len() {
            assert(line[i] == digits[i]);
            assert(is_digit(digits[i]));
        } else if i < digits.len() + 2 {
            assert(line[i] == delimiter()[i - digits.len()]);
        } else {
            assert(line[i] == value[i - digits.len() - 2]);
        }
    }
    assert(line[n] == '\n');
    lemma_line_length(line, n);
}

/// The text of a run that holds an entry is not empty.
pub proof fn lemma_encoded_all_len(es: Seq<Entry>)
    ensures
        es.len() > 0 ==> encoded_all(es).len() > 0,
        es.len() == 0 ==> encoded_all(es).len() == 0,
{
}

/// Putting one more entry at the end of a run puts its line at the end of
/// the text.
pub proof fn lemma_encoded_all_push(es: Seq<Entry>, e: Entry)
    ensures
        encoded_all(es.push(e)) == encoded_all(es) + encoded(e.0, e.1),
{
    assert(es.push(e).drop_last() =~= es);
}

/// Putting one entry in front of a run puts its line in front of the text.
pub proof fn lemma_encoded_all_front(e: Entry, es: Seq<Entry>)
    ensures
        encoded_all(seq![e] + es) == encoded(e.0, e.1) + encoded_all(es),
    decreases es.len(),
{
    let all = seq![e] + es;
    if es.len() == 0 {
        assert(all =~= seq![e]);
        assert(all.drop_last() =~= Seq::<Entry>::empty());
        assert(encoded_all(all.drop_last()) =~= Seq::<char>::empty());
        assert(encoded_all(all) =~= encoded(e.0, e.1));
        assert(encoded_all(es) =~= Seq::<char>::empty());
        assert(encoded(e.0, e.1) + encoded_all(es) =~= encoded(e.0, e.1));
    } else {
        assert(all.drop_last() =~= seq![e] + es.drop_last());
        assert(all.last() == es.last());
        lemma_encoded_all_front(e, es.drop_last());
        assert(encoded_all(all) =~= encoded(e.0, e.1) + encoded_all(es));
    }
}

/// Parsing the text of a run of entries gives the run back, if every value
/// fits on one line.
pub proof fn lemma_parse_encoded(es: Seq<Entry>)
    requires
        all_single_line(es),
    ensures
        parsed(encoded_all(es)) == Ok::<Seq<Entry>, DecodeError>(es),
    decreases es.len(),
{
    if es.len() == 0 {
        assert(es =~= Seq::<Entry>::empty());
    } else {
        let e = es[0];
        let rest = es.drop_first();
        assert(es =~= seq![e] + rest);
        lemma_encoded_all_front(e, rest);
        let line = encoded(e.0, e.1);
        let text = encoded_all(es);
        assert(text == line + encoded_all(rest));
        assert(single_line(e.1));
        lemma_encoded_line(e.0, e.1);
        let n = line.len() - 1;
        lemma_line_length_bounds(line);
        assert forall|i: int| 0 <= i < n implies text[i] != '\n' by {
            assert(text[i] == line[i]);
        }
        assert(text[n] == line[n]);
        lemma_line_length(text, n);
        assert(text.take(n) =~= line.drop_last());
        assert(after_line(text) =~= encoded_all(rest));
        lemma_decode_body(e.0, e.1);
        assert(parsed(text) == put_first(e, parsed(encoded_all(rest))));
        assert(all_single_line(rest)) by {
            assert forall|i: int| 0 <= i < rest.len() implies single_line(
                #[trigger] rest[i].1,
            ) by {
                assert(rest[i] == es[i + 1]);
            }
        }
        lemma_parse_encoded(rest);
    }
}

/// The line of a record without its line break decodes to the record, if
/// the value fits on one line.
pub proof fn lemma_decode_body(key: u32, value: Seq<char>)
    requires
        single_line(value),
    ensures
        decoded(encoded(key, value).drop_last()) == Ok::<Entry, DecodeError>((key, value)),
{
    let digits = decimal(key as nat);
    let body = digits + delimiter() + value;
    lemma_decimal_is_digits(key as nat);
    assert(encoded(key, value).drop_last() =~= body);
    if value.len() > 0 {
        assert(body.last() == value.last());
    } else {
        assert(body.last() == ':');
    }
    assert(trim_newline(body) == body);
    let at = digits.len() as int;
    assert(body[at] == ':' && body[at + 1] == ':');
    assert forall|j: int| 0 <= j < at implies !delimiter_at(body, j) by {
        assert(body[j] == digits[j]);
        assert(is_digit(digits[j]));
    }
    lemma_first_delimiter(body, at);
    assert(body.take(at) =~= digits);
    assert(body.skip(at + 2) =~= value);
}

/// Whatever a text stores fits on one line, value by value.
pub proof fn lemma_parsed_single_line(text: Seq<char>)
    requires
        parsed(text) is Ok,
    ensures
        all_single_line(parsed(text)->Ok_0),
    decreases text.len(),
{
    if text.len() == 0 {
    } else {
        let n = line_length(text) as int;
        let line = text.take(n);
        lemma_line_length_bounds(text);
        let first = decoded(line)->Ok_0;
        let rest = parsed(after_line(text))->Ok_0;
        lemma_parsed_single_line(after_line(text));
        assert(single_line(first.1)) by {
            let body = trim_newline(line);
            let at = first_delimiter(body);
            lemma_has_first_delimiter(body);
            assert(first.1 == body.skip(at + 2));
            assert forall|i: int| 0 <= i < first.1.len() implies first.1[i] != '\n' by {
                assert(first.1[i] == body[i + at + 2]);
                assert(body[i + at + 2] == line[i + at + 2]);
                assert(line[i + at + 2] == text[i + at + 2]);
            }
        }
        let all = seq![first] + rest;
        assert forall|i: int| 0 <= i < all.len() implies single_line(#[trigger] all[i].1) by {
            if i > 0 {
                assert(all[i] == rest[i - 1]);
            }
        }
    }
}

/// Parses the text of a segment into its records.
pub fn parse_segment(text: &str) -> (r: Result<Vec<Record>, DecodeError>)
    ensures
        match r {
            Ok(records) => parsed(text@) == Ok::<Seq<Entry>, DecodeError>(entries(records@)),
            Err(e) => parsed(text@) == Err::<Seq<Entry>, DecodeError>(e),
        },
{
    let chars = chars_of(text);
    let mut records: Vec<Record> = Vec::new();
    let mut pos: usize = 0;
    proof {
        assert(text@.skip(0) =~= text@);
        if let Ok(rest) = parsed(text@) {
            assert(entries(records@) + rest =~= rest);
        }
    }
    while pos < chars.len()
        invariant
            pos <= chars.len(),
            chars@ == text@,
            match parsed(text@.skip(pos as int)) {
                Ok(rest) => parsed(text@) == Ok::<Seq<Entry>, DecodeError>(
                    entries(records@) + rest,
                ),
                Err(e) => parsed(text@) == Err::<Seq<Entry>, DecodeError>(e),
            },
        decreases chars.len() - pos,
    {
        let ghost tail = text@.skip(pos as int);
        let mut end: usize = pos;
        while end < chars.len() && chars[end] != '\n'
            invariant
                pos <= end <= chars.len(),
                forall|i: int| pos <= i < end ==> chars[i] != '\n',
            decreases chars.len() - end,
        {
            end = end + 1;
        }
        proof {
            assert forall|i: int| 0 <= i < end - pos implies tail[i] != '\n' by {
                assert(tail[i] == chars[pos + i]);
            }
            if end < chars.len() {
                assert(tail[end - pos] == chars[end as int]);
            }
            lemma_line_length(tail, end - pos);
            assert(tail.take(end - pos) =~= text@.subrange(pos as int, end as int));
        }
        let next: usize = if end < chars.len() {
            end + 1
        } else {
            end
        };
        proof {
            assert(after_line(tail) =~= text@.skip(next as int));
        }
        match decode_range(text, &chars, pos, end) {
            Err(e) => {
                return Err(e);
            },
            Ok(record) => {
                proof {
                    let before = entries(records@);
                    let after = entries(records@.push(record));
                    assert(after =~= before.push(record@));
                    match parsed(text@.skip(next as int)) {
                        Ok(rest) => {
                            assert(before + (seq![record@] + rest) =~= after + rest);
                        },
                        Err(e) => {},
                    }
                }
                records.push(record);
            },
        }
        pos = next;
    }
    proof {
        assert(text@.skip(pos as int).len() == 0);
        assert(entries(records@) + Seq::<Entry>::empty() =~= entries(records@));
    }
    Ok(records)
}

/// The text that stores `records`, one line each.
pub fn encode_segment(records: &Vec<Record>) -> (text: String)
    ensures
        text@ == encoded_all(entries(records@)),
{
    let mut text = String::new();
    let mut i: usize = 0;
    while i < records.len()
        invariant
            i <= records.len(),
            text@ == encoded_all(entries(records@).take(i as int)),
        decreases records.len() - i,
    {
        proof {
            let es = entries(records@);
            assert(es.take(i + 1) =~= es.take(i as int).push(es[i as int]));
            lemma_encoded_all_push(es.take(i as int), es[i as int]);
        }
        append_record(&mut text, records[i].key, records[i].value.as_str());
        i = i + 1;
    }
    proof {
        assert(entries(records@).take(i as int) =~= entries(records@));
    }
    text
}

/// Looks `key` up in `records`; of several records with that key the last
/// one counts.
pub fn find(records: &Vec<Record>, key: u32) -> (r: Option<String>)
    ensures
        match r {
            Some(value) => value_at(as_map(entries(records@)), key) == Some(value@),
            None => value_at(as_map(entries(records@)), key) is None,
        },
{
    let mut i: usize = records.len();
    proof {
        assert(entries(records@).take(i as int) =~= entries(records@));
    }
    while i > 0
        invariant
            i <= records.len(),
            value_at(as_map(entries(records@)), key) == value_at(
                as_map(entries(records@).take(i as int)),
                key,
            ),
        decreases i,
    {
        let ghost prefix = entries(records@).take(i as int);
        proof {
            assert(prefix.drop_last() =~= entries(records@).take(i - 1));
            assert(prefix.last() == records@[i - 1]@);
        }
        if records[i - 1].key == key {
            return Some(records[i - 1].value.clone());
        }
        i = i - 1;
    }
    proof {
        assert(entries(records@).take(0) =~= Seq::<Entry>::empty());
    }
    None
}

} // verus!
