//! The record codec: one record is one line of text, `<key>::<value>\n`.

use crate::decimal::{
    decimal, is_digit, lemma_decimal_is_digits, parse_u32, push_decimal, read_u32,
};
use vstd::prelude::*;

verus! {

/// A key with its value.
#[derive(Debug, Clone, PartialEq, Eq)]
pub struct Record {
    pub key: u32,
    pub value: String,
}

impl View for Record {
    type V = (u32, Seq<char>);

    open spec fn view(&self) -> (u32, Seq<char>) {
        (self.key, self.value@)
    }
}

/// Why a line is no record.
#[derive(Debug, Clone, Copy, PartialEq, Eq, Structural)]
pub enum DecodeError {
    /// The line holds no `::`.
    MissingDelimiter,
    /// What stands before the first `::` is no unsigned 32-bit integer.
    InvalidKey,
}

/// The two characters that part a key from its value.
pub open spec fn delimiter() -> Seq<char> {
    seq![':', ':']
}

/// Whether the delimiter stands in `s` at index `i`.
pub open spec fn delimiter_at(s: Seq<char>, i: int) -> bool {
    0 <= i && i + 1 < s.len() && s[i] == ':' && s[i + 1] == ':'
}

/// Whether the delimiter stands anywhere in `s`.
pub open spec fn has_delimiter(s: Seq<char>) -> bool {
    exists|i: int| delimiter_at(s, i)
}

/// Whether `i` is where the delimiter stands first in `s`.
pub open spec fn is_first_delimiter(s: Seq<char>, i: int) -> bool {
    delimiter_at(s, i) && forall|j: int| 0 <= j < i ==> !delimiter_at(s, j)
}

/// Where the delimiter stands first in `s`, if it stands there at all.
pub open spec fn first_delimiter(s: Seq<char>) -> int {
    choose|i: int| is_first_delimiter(s, i)
}

/// Whether `s` holds no line break, so that it fits on one line of a segment.
pub open spec fn single_line(s: Seq<char>) -> bool {
    forall|i: int| 0 <= i < s.len() ==> s[i] != '\n'
}

/// The line that stores `value` under `key`.
pub open spec fn encoded(key: u32, value: Seq<char>) -> Seq<char> {
    decimal(key as nat) + delimiter() + value + seq!['\n']
}

/// `line` without the line break that ends it, if one does.
pub open spec fn trim_newline(line: Seq<char>) -> Seq<char> {
    if line.len() > 0 && line.last() == '\n' {
        line.drop_last()
    } else {
        line
    }
}

/// The record that `line` stores. The line is split at the first delimiter:
/// the key is read from what stands before it, and the value is all that
/// follows it, up to the line break that ends the line.
pub open spec fn decoded(line: Seq<char>) -> Result<(u32, Seq<char>), DecodeError> {
    let body = trim_newline(line);
    if !has_delimiter(body) {
        Err(DecodeError::MissingDelimiter)
    } else {
        let at = first_delimiter(body);
        match parse_u32(body.take(at)) {
            None => Err(DecodeError::InvalidKey),
            Some(key) => Ok((key, body.skip(at + 2))),
        }
    }
}

/// The first place of the delimiter is unique.
pub proof fn lemma_first_delimiter(s: Seq<char>, i: int)
    requires
        is_first_delimiter(s, i),
    ensures
        has_delimiter(s),
        first_delimiter(s) == i,
{
    let j = first_delimiter(s);
    assert(is_first_delimiter(s, j));
    if j < i {
        assert(!delimiter_at(s, j));
    } else if i < j {
        assert(!delimiter_at(s, i));
    }
}

/// Where the delimiter stands at all, it stands somewhere first.
pub proof fn lemma_has_first_delimiter(s: Seq<char>)
    requires
        has_delimiter(s),
    ensures
        is_first_delimiter(s, first_delimiter(s)),
{
    let i = choose|i: int| delimiter_at(s, i);
    lemma_least_delimiter(s, i);
}

proof fn lemma_least_delimiter(s: Seq<char>, i: int)
    requires
        delimiter_at(s, i),
    ensures
        exists|k: int| is_first_delimiter(s, k),
    decreases i,
{
    if forall|j: int| 0 <= j < i ==> !delimiter_at(s, j) {
        assert(is_first_delimiter(s, i));
    } else {
        let j = choose|j: int| 0 <= j < i && delimiter_at(s, j);
        lemma_least_delimiter(s, j);
    }
}

/// Decoding the line of a record gives the record back, whatever the key
/// and the value are.
pub proof fn lemma_decode_encode(key: u32, value: Seq<char>)
    ensures
        decoded(encoded(key, value)) == Ok::<(u32, Seq<char>), DecodeError>((key, value)),
{
    let digits = decimal(key as nat);
    let line = encoded(key, value);
    let body = digits + delimiter() + value;
    lemma_decimal_is_digits(key as nat);
    assert(line.last() == '\n');
    assert(trim_newline(line) =~= body);
    let at = digits.len() as int;
    assert(body[at] == ':' && body[at + 1] == ':');
    assert forall|j: int| 0 <= j < at implies !delimiter_at(body, j) by {
        assert(body[j] == digits[j]);
        assert(is_digit(digits[j]));
    }
    lemma_first_delimiter(body, at);
    assert(body.take(at) =~= digits);
    assert(body.skip(at + 2) =~= value);
}

/// The characters of `text`, one by one.
pub fn chars_of(text: &str) -> (chars: Vec<char>)
    ensures
        chars@ == text@,
{
    let mut chars: Vec<char> = Vec::new();
    for c in it: text.chars()
        invariant
            chars@ == it.seq().take(it.index()),
            it.seq() == text@,
    {
        chars.push(c);
    }
    chars
}

/// Whether `value` holds no line break.
pub fn is_single_line(value: &str) -> (r: bool)
    ensures
        r == single_line(value@),
{
    let chars = chars_of(value);
    let mut i: usize = 0;
    while i < chars.len()
        invariant
            i <= chars.len(),
            chars@ == value@,
            forall|j: int| 0 <= j < i ==> chars[j] != '\n',
        decreases chars.len() - i,
    {
        if chars[i] == '\n' {
            return false;
        }
        i = i + 1;
    }
    true
}

/// Appends the line of the record `(key, value)` to `out`.
pub fn append_record(out: &mut String, key: u32, value: &str)
    ensures
        final(out)@ == old(out)@ + encoded(key, value@),
{
    push_decimal(out, key as u64);
    out.append("::");
    out.append(value);
    out.append("\n");
    proof {
        reveal_strlit("::");
        reveal_strlit("\n");
        assert("::"@ =~= delimiter());
        assert("\n"@ =~= seq!['\n']);
        assert(final(out)@ =~= old(out)@ + encoded(key, value@));
    }
}

/// The line that stores `value` under `key`: `<key>::<value>\n`.
pub fn encode(key: u32, value: &str) -> (line: String)
    ensures
        line@ == encoded(key, value@),
{
    let mut line = String::new();
    append_record(&mut line, key, value);
    assert(Seq::<char>::empty() + encoded(key, value@) =~= encoded(key, value@));
    line
}

/// Decodes the line `text[start..end]`, where `chars` holds the characters
/// of `text`.
pub fn decode_range(text: &str, chars: &Vec<char>, start: usize, end: usize) -> (r: Result<
    Record,
    DecodeError,
>)
    requires
        chars@ == text@,
        start <= end <= chars.len(),
    ensures
        match r {
            Ok(record) => decoded(text@.subrange(start as int, end as int)) == Ok::<
                (u32, Seq<char>),
                DecodeError,
            >(record@),
            Err(e) => decoded(text@.subrange(start as int, end as int)) == Err::<
                (u32, Seq<char>),
                DecodeError,
            >(e),
        },
{
    let ghost line = text@.subrange(start as int, end as int);
    let stop: usize = if start < end && chars[end - 1] == '\n' {
        end - 1
    } else {
        end
    };
    let ghost body = text@.subrange(start as int, stop as int);
    proof {
        if start < end {
            assert(line.last() == chars[end - 1]);
        }
        assert(trim_newline(line) =~= body);
    }
    let mut i: usize = start;
    let mut found: bool = false;
    while stop - i > 1
        invariant_except_break
            !found,
        invariant
            start <= i <= stop <= chars.len(),
            chars@ == text@,
            body == text@.subrange(start as int, stop as int),
            forall|j: int| 0 <= j < i - start ==> !delimiter_at(body, j),
        ensures
            start <= i,
            found ==> i + 1 < stop && is_first_delimiter(body, i - start),
            !found ==> !has_delimiter(body),
        decreases stop - i,
    {
        if chars[i] == ':' && chars[i + 1] == ':' {
            found = true;
            proof {
                assert(body[i - start] == chars[i as int]);
                assert(body[i - start + 1] == chars[i + 1]);
            }
            break;
        }
        proof {
            assert(body[i - start] == chars[i as int]);
            assert(body[i - start + 1] == chars[i + 1]);
        }
        i = i + 1;
    }
    if !found {
        return Err(DecodeError::MissingDelimiter);
    }
    proof {
        lemma_first_delimiter(body, i - start);
        assert(body.take(i - start) =~= chars@.subrange(start as int, i as int));
        assert(body.skip(i - start + 2) =~= text@.subrange(i + 2, stop as int));
    }
    match read_u32(chars, start, i) {
        None => Err(DecodeError::InvalidKey),
        Some(key) => {
            let value = text.substring_char(i + 2, stop).to_owned();
            Ok(Record { key, value })
        },
    }
}

/// Decodes one line, with or without the line break that ends it.
pub fn decode(line: &str) -> (r: Result<Record, DecodeError>)
    ensures
        match r {
            Ok(record) => decoded(line@) == Ok::<(u32, Seq<char>), DecodeError>(record@),
            Err(e) => decoded(line@) == Err::<(u32, Seq<char>), DecodeError>(e),
        },
{
    let chars = chars_of(line);
    assert(line@.subrange(0, line@.len() as int) =~= line@);
    decode_range(line, &chars, 0, chars.len())
}

} // verus!
