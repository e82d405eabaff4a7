//! TiVo's index entries: plain text of the form `<n>:<TITLE>:<n>:<n>:<fsid>`, found
//! among any other bytes.

use regex::bytes::Regex;
use vstd::prelude::*;

use crate::text::decimal;

verus! {

/// `\d+:<title>:\d+:\d+:<fsid>` over raw bytes (unicode mode off).
const INDEX_PATTERN: &'static str = r"(?-u)\d+:([^:\x00]{1,90}):\d+:\d+:(\d+)";

/// The longest title of an index entry, in bytes.
pub const MAX_TITLE_BYTES: usize = 90;

pub const COLON: u8 = 58;

/// Where an index entry stands in a run of bytes: its first byte, its title, and
/// its fsid, with which it ends.
#[derive(Debug, Clone, Copy, PartialEq, Eq)]
pub struct IndexMatch {
    pub start: usize,
    pub title: usize,
    pub title_end: usize,
    pub fsid: usize,
    pub end: usize,
}

pub open spec fn is_digit(byte: u8) -> bool {
    48 <= byte <= 57
}

/// The bytes from `from` to `to` are one or more decimal digits.
pub open spec fn is_number(data: Seq<u8>, from: int, to: int) -> bool {
    &&& 0 <= from < to <= data.len()
    &&& forall|i: int| from <= i < to ==> is_digit(#[trigger] data[i])
}

/// There is a colon at `at`.
pub open spec fn is_colon(data: Seq<u8>, at: int) -> bool {
    0 <= at < data.len() && data[at] == COLON
}

/// The bytes from `from` to `to` can be a title.
pub open spec fn is_title(data: Seq<u8>, from: int, to: int) -> bool {
    &&& 0 <= from < to <= data.len()
    &&& to - from <= MAX_TITLE_BYTES
    &&& forall|i: int| from <= i < to ==> #[trigger] data[i] != COLON && data[i] != 0
}

/// Two numbers, each followed by a colon, fill the bytes from `from` to `to`.
pub open spec fn is_number_pair(data: Seq<u8>, from: int, middle: int, to: int) -> bool {
    &&& is_number(data, from, middle)
    &&& is_colon(data, middle)
    &&& is_number(data, middle + 1, to - 1)
    &&& is_colon(data, to - 1)
}

/// `m` is an index entry of `data`.
#[verifier::opaque]
pub open spec fn is_entry(data: Seq<u8>, m: IndexMatch) -> bool {
    &&& is_number(data, m.start as int, m.title - 1)
    &&& is_colon(data, m.title - 1)
    &&& is_title(data, m.title as int, m.title_end as int)
    &&& is_colon(data, m.title_end as int)
    &&& exists|middle: int| #[trigger]
        is_number_pair(data, m.title_end + 1, middle, m.fsid as int)
    &&& is_number(data, m.fsid as int, m.end as int)
}

/// No digit of the fsid is left out.
pub open spec fn is_whole(data: Seq<u8>, m: IndexMatch) -> bool {
    m.end == data.len() || !is_digit(data[m.end as int])
}

/// `start` lies within one of the matches.
#[verifier::opaque]
pub open spec fn is_covered(matches: Seq<IndexMatch>, start: int) -> bool {
    exists|i: int|
        0 <= i < matches.len() && (#[trigger] matches[i]).start <= start < matches[i].end
}

/// `matches` are the index entries of `data` from left to right: they do not
/// overlap, each is as long as it can be, and wherever an entry could start one
/// of them lies.
pub open spec fn are_all_entries(data: Seq<u8>, matches: Seq<IndexMatch>) -> bool {
    &&& forall|i: int|
        0 <= i < matches.len() ==> is_entry(data, #[trigger] matches[i]) && is_whole(
            data,
            matches[i],
        )
    &&& forall|i: int, j: int|
        0 <= i < j < matches.len() ==> (#[trigger] matches[i]).end <= (#[trigger] matches[j]).start
    &&& forall|m: IndexMatch| #[trigger] is_entry(data, m) ==> is_covered(matches, m.start as int)
}

/// `Regex::new` on the pattern of an index entry, and `Regex::captures_iter` on
/// what it gives: all matches from left to right, without overlap, each starting
/// at the leftmost byte where one can start behind the match before it, and
/// taking as many digits as there are for the fsid.
#[verifier::external_body]
fn find_entries(pattern: &str, data: &[u8]) -> (matches: Vec<IndexMatch>)
    requires
        pattern@ == INDEX_PATTERN@,
    ensures
        are_all_entries(data@, matches@),
{
    let regex = Regex::new(pattern).expect("valid regex");
    let mut matches = Vec::new();
    for caps in regex.captures_iter(data) {
        let (title, fsid) = (caps.get(1).unwrap(), caps.get(2).unwrap());
        matches.push(IndexMatch {
            start: caps.get(0).unwrap().start(),
            title: title.start(),
            title_end: title.end(),
            fsid: fsid.start(),
            end: fsid.end(),
        });
    }
    matches
}

/// The parts of an entry follow each other within the data.
pub proof fn law_entry_parts_are_in_order(data: Seq<u8>, m: IndexMatch)
    requires
        is_entry(data, m),
    ensures
        m.start < m.title < m.title_end < m.fsid < m.end <= data.len(),
        m.title_end - m.title <= MAX_TITLE_BYTES,
{
    reveal(is_entry);
}

proof fn lemma_number_end(data: Seq<u8>, from: int, a: int, b: int)
    requires
        is_number(data, from, a),
        is_number(data, from, b),
        a == data.len() || !is_digit(data[a]),
        b == data.len() || !is_digit(data[b]),
    ensures
        a == b,
{
    if a < b {
        assert(is_digit(data[a]));
    }
    if b < a {
        assert(is_digit(data[b]));
    }
}

/// An index entry is fixed by where it starts.
pub proof fn law_entry_is_fixed_by_its_start(data: Seq<u8>, a: IndexMatch, b: IndexMatch)
    requires
        is_entry(data, a) && is_whole(data, a),
        is_entry(data, b) && is_whole(data, b),
        a.start == b.start,
    ensures
        a == b,
{
    reveal(is_entry);
    lemma_number_end(data, a.start as int, a.title - 1, b.title - 1);
    if a.title_end < b.title_end {
        assert(data[a.title_end as int] != COLON);
    }
    if b.title_end < a.title_end {
        assert(data[b.title_end as int] != COLON);
    }
    let from = a.title_end + 1;
    let ma = choose|middle: int| #[trigger] is_number_pair(data, from, middle, a.fsid as int);
    let mb = choose|middle: int| #[trigger] is_number_pair(data, from, middle, b.fsid as int);
    lemma_number_end(data, from, ma, mb);
    lemma_number_end(data, ma + 1, a.fsid - 1, b.fsid - 1);
    lemma_number_end(data, a.fsid as int, a.end as int, b.end as int);
}

pub(crate) proof fn lemma_covering_match(matches: Seq<IndexMatch>, start: int) -> (i: int)
    requires
        is_covered(matches, start),
    ensures
        0 <= i < matches.len(),
        matches[i].start <= start < matches[i].end,
{
    reveal(is_covered);
    choose|i: int|
        0 <= i < matches.len() && (#[trigger] matches[i]).start <= start < matches[i].end
}

proof fn lemma_covered_by(matches: Seq<IndexMatch>, i: int, start: int)
    requires
        0 <= i < matches.len(),
        matches[i].start <= start < matches[i].end,
    ensures
        is_covered(matches, start),
{
    reveal(is_covered);
}

proof fn lemma_no_entry_before(data: Seq<u8>, a: Seq<IndexMatch>, b: Seq<IndexMatch>, k: int)
    requires
        are_all_entries(data, a),
        are_all_entries(data, b),
        0 <= k < a.len(),
        k <= b.len(),
        a.take(k) == b.take(k),
    ensures
        k < b.len(),
        b[k].start <= a[k].start,
{
    assert(is_entry(data, a[k]));
    let j = lemma_covering_match(b, a[k].start as int);
    if j < k {
        assert(a[j] == a.take(k)[j]);
        assert(b[j] == b.take(k)[j]);
        assert(a[j].end <= a[k].start);
    } else if k < j {
        assert(b[k].end <= b[j].start);
        law_entry_parts_are_in_order(data, b[k]);
    }
}

proof fn lemma_entries_agree(data: Seq<u8>, a: Seq<IndexMatch>, b: Seq<IndexMatch>, k: int)
    requires
        are_all_entries(data, a),
        are_all_entries(data, b),
        0 <= k <= a.len(),
    ensures
        k <= b.len(),
        a.take(k) == b.take(k),
    decreases k,
{
    if k > 0 {
        lemma_entries_agree(data, a, b, k - 1);
        lemma_no_entry_before(data, a, b, k - 1);
        lemma_no_entry_before(data, b, a, k - 1);
        law_entry_is_fixed_by_its_start(data, a[k - 1], b[k - 1]);
        assert(a.take(k) =~= a.take(k - 1).push(a[k - 1]));
        assert(b.take(k) =~= b.take(k - 1).push(b[k - 1]));
    } else {
        assert(a.take(0) =~= b.take(0));
    }
}

/// There is one list of the index entries of `data`.
pub proof fn law_entries_are_unique(data: Seq<u8>, a: Seq<IndexMatch>, b: Seq<IndexMatch>)
    requires
        are_all_entries(data, a),
        are_all_entries(data, b),
    ensures
        a == b,
{
    lemma_entries_agree(data, a, b, a.len() as int);
    lemma_entries_agree(data, b, a, b.len() as int);
    assert(a.take(a.len() as int) =~= a);
    assert(b.take(b.len() as int) =~= b);
}

proof fn lemma_whole_number(data: Seq<u8>, from: int, to: int) -> (end: int)
    requires
        is_number(data, from, to),
    ensures
        is_number(data, from, end),
        end == data.len() || !is_digit(data[end]),
    decreases data.len() - to,
{
    if to < data.len() && is_digit(data[to]) {
        lemma_whole_number(data, from, to + 1)
    } else {
        to
    }
}

proof fn lemma_whole_entry(data: Seq<u8>, m: IndexMatch) -> (whole: IndexMatch)
    requires
        data.len() <= usize::MAX,
        is_entry(data, m),
    ensures
        is_entry(data, whole),
        is_whole(data, whole),
        whole.start == m.start,
{
    reveal(is_entry);
    let end = lemma_whole_number(data, m.fsid as int, m.end as int);
    IndexMatch { end: end as usize, ..m }
}

proof fn lemma_entries_from(data: Seq<u8>, at: int) -> (matches: Seq<IndexMatch>)
    requires
        data.len() <= usize::MAX,
        0 <= at <= data.len(),
    ensures
        forall|i: int|
            0 <= i < matches.len() ==> at <= (#[trigger] matches[i]).start && is_entry(
                data,
                matches[i],
            ) && is_whole(data, matches[i]),
        forall|i: int, j: int|
            0 <= i < j < matches.len() ==> (#[trigger] matches[i]).end <= (
            #[trigger] matches[j]).start,
        forall|m: IndexMatch| #[trigger]
            is_entry(data, m) && at <= m.start ==> is_covered(matches, m.start as int),
    decreases data.len() - at,
{
    if at == data.len() {
        let none = Seq::<IndexMatch>::empty();
        assert forall|m: IndexMatch| #[trigger]
            is_entry(data, m) && at <= m.start implies is_covered(none, m.start as int) by {
            law_entry_parts_are_in_order(data, m);
        }
        none
    } else if exists|m: IndexMatch| #[trigger] is_entry(data, m) && m.start == at {
        let m = choose|m: IndexMatch| #[trigger] is_entry(data, m) && m.start == at;
        let first = lemma_whole_entry(data, m);
        law_entry_parts_are_in_order(data, first);
        let end = first.end as int;
        let rest = lemma_entries_from(data, end);
        let matches = seq![first] + rest;
        assert(matches[0] == first);
        assert forall|i: int| 0 < i < matches.len() implies #[trigger] matches[i]
            == rest[i - 1] by {
        }
        assert forall|other: IndexMatch| #[trigger]
            is_entry(data, other) && at <= other.start implies is_covered(
            matches,
            other.start as int,
        ) by {
            if other.start >= end {
                let i = lemma_covering_match(rest, other.start as int);
                lemma_covered_by(matches, i + 1, other.start as int);
            } else {
                lemma_covered_by(matches, 0, other.start as int);
            }
        }
        matches
    } else {
        lemma_entries_from(data, at + 1)
    }
}

/// Every run of bytes that fits in memory has a list of index entries.
pub proof fn law_entries_exist(data: Seq<u8>)
    requires
        data.len() <= usize::MAX,
    ensures
        are_all_entries(data, entries_of(data)),
{
    let matches = lemma_entries_from(data, 0);
    assert(are_all_entries(data, matches));
}

/// The index entries of `data`, from left to right.
pub open spec fn entries_of(data: Seq<u8>) -> Seq<IndexMatch> {
    choose|matches: Seq<IndexMatch>| are_all_entries(data, matches)
}

/// Finds the index entries of `data`, from left to right.
pub fn index_entries(data: &[u8]) -> (matches: Vec<IndexMatch>)
    ensures
        are_all_entries(data@, matches@),
        matches@ == entries_of(data@),
{
    let matches = find_entries(INDEX_PATTERN, data);
    proof {
        law_entries_are_unique(data@, matches@, entries_of(data@));
    }
    matches
}

/// The number that decimal digits stand for.
pub open spec fn number_value(digits: Seq<u8>) -> nat
    decreases digits.len(),
{
    if digits.len() == 0 {
        0
    } else {
        10 * number_value(digits.drop_last()) + (digits.last() - 48) as nat
    }
}

proof fn lemma_longer_numbers_are_larger(digits: Seq<u8>, n: int)
    requires
        0 <= n <= digits.len(),
        forall|i: int| 0 <= i < digits.len() ==> is_digit(#[trigger] digits[i]),
    ensures
        number_value(digits.take(n)) <= number_value(digits),
    decreases digits.len(),
{
    if n < digits.len() {
        let shorter = digits.drop_last();
        assert forall|i: int| 0 <= i < shorter.len() implies is_digit(#[trigger] shorter[i]) by {
            assert(shorter[i] == digits[i]);
        }
        lemma_longer_numbers_are_larger(shorter, n);
        assert(shorter.take(n) =~= digits.take(n));
    } else {
        assert(digits.take(n) =~= digits);
    }
}

/// Reads a number of decimal digits; `None` when it does not fit.
pub fn parse_number(digits: &[u8]) -> (value: Option<u64>)
    requires
        forall|i: int| 0 <= i < digits@.len() ==> is_digit(#[trigger] digits@[i]),
    ensures
        match value {
            Some(v) => v == number_value(digits@),
            None => number_value(digits@) > u64::MAX,
        },
{
    let mut value: u64 = 0;
    let mut i: usize = 0;
    assert(digits@.take(0) =~= Seq::<u8>::empty());
    while i < digits.len()
        invariant
            i <= digits@.len(),
            forall|k: int| 0 <= k < digits@.len() ==> is_digit(#[trigger] digits@[k]),
            value == number_value(digits@.take(i as int)),
        decreases digits@.len() - i,
    {
        let ghost done = digits@.take(i as int);
        let digit: u64 = (digits[i] - 48) as u64;
        i += 1;
        proof {
            assert(digits@.take(i as int).drop_last() =~= done);
            assert(digits@.take(i as int).last() == digits@[i - 1]);
            lemma_longer_numbers_are_larger(digits@, i as int);
        }
        if value > (u64::MAX - digit) / 10 {
            return None;
        }
        value = value * 10 + digit;
    }
    assert(digits@.take(i as int) =~= digits@);
    Some(value)
}

/// An index entry: `<n>:<TITLE>:<n>:<n>:<fsid>`.
pub open spec fn entry_bytes(
    first: Seq<u8>,
    title: Seq<u8>,
    second: Seq<u8>,
    third: Seq<u8>,
    fsid: Seq<u8>,
) -> Seq<u8> {
    first + seq![COLON] + title + seq![COLON] + second + seq![COLON] + third + seq![COLON] + fsid
}

pub open spec fn are_digits(bytes: Seq<u8>) -> bool {
    bytes.len() > 0 && forall|i: int| 0 <= i < bytes.len() ==> is_digit(#[trigger] bytes[i])
}

/// Digits are one or more of the ASCII digits, as many as there are; what can be a
/// title are one to ninety bytes of which none is a colon or a NUL.
pub proof fn law_digits_and_titles_are_told_by_their_bytes(bytes: Seq<u8>)
    ensures
        are_digits(bytes) <==> bytes.len() > 0 && forall|i: int|
            0 <= i < bytes.len() ==> 48 <= #[trigger] bytes[i] <= 57,
        is_title(bytes, 0, bytes.len() as int) <==> 1 <= bytes.len() <= 90 && !bytes.contains(58)
            && !bytes.contains(0),
{
    if are_digits(bytes) {
        assert forall|i: int| 0 <= i < bytes.len() implies 48 <= #[trigger] bytes[i] <= 57 by {
            assert(is_digit(bytes[i]));
        }
    }
    assert forall|i: int| 0 <= i < bytes.len() implies bytes.contains(#[trigger] bytes[i]) by {
    }
}

/// An entry at the start of `data`, followed by no further digit, is the first
/// that is found, with the title and the fsid that were written.
pub proof fn law_entry_reads_back(
    first: Seq<u8>,
    title: Seq<u8>,
    second: Seq<u8>,
    third: Seq<u8>,
    fsid: Seq<u8>,
    rest: Seq<u8>,
)
    requires
        entry_bytes(first, title, second, third, fsid).len() + rest.len() <= usize::MAX,
        are_digits(first) && are_digits(second) && are_digits(third) && are_digits(fsid),
        is_title(title, 0, title.len() as int),
        rest.len() > 0 ==> !is_digit(rest[0]),
    ensures
        ({
            let data = entry_bytes(first, title, second, third, fsid) + rest;
            let m = entries_of(data)[0];
            &&& entries_of(data).len() > 0
            &&& m.start == 0
            &&& m.end == data.len() - rest.len()
            &&& is_entry(data, m) && is_whole(data, m)
            &&& data.subrange(m.title as int, m.title_end as int) == title
            &&& data.subrange(m.fsid as int, m.end as int) == fsid
        }),
{
    reveal(is_entry);
    let data = entry_bytes(first, title, second, third, fsid) + rest;
    let a = first.len() as int;
    let b = a + 1 + title.len();
    let c = b + 1 + second.len();
    let d = c + 1 + third.len();
    let e = d + 1 + fsid.len();
    assert(data.subrange(0, a) =~= first);
    assert(data.subrange(a + 1, b) =~= title);
    assert(data.subrange(b + 1, c) =~= second);
    assert(data.subrange(c + 1, d) =~= third);
    assert(data.subrange(d + 1, e) =~= fsid);
    lemma_number_in_place(data, first, 0);
    lemma_number_in_place(data, second, b + 1);
    lemma_number_in_place(data, third, c + 1);
    lemma_number_in_place(data, fsid, d + 1);
    assert forall|i: int| a + 1 <= i < b implies #[trigger] data[i] != COLON && data[i] != 0 by {
        assert(data[i] == title[i - a - 1]);
    }
    assert(is_colon(data, a) && is_colon(data, b) && is_colon(data, c) && is_colon(data, d));
    assert(is_number_pair(data, b + 1, c, d + 1));
    let m = IndexMatch {
        start: 0,
        title: (a + 1) as usize,
        title_end: b as usize,
        fsid: (d + 1) as usize,
        end: e as usize,
    };
    assert(is_title(data, m.title as int, m.title_end as int));
    assert(is_number_pair(data, m.title_end + 1, c, m.fsid as int));
    assert(is_entry(data, m));
    assert(is_whole(data, m)) by {
        if rest.len() > 0 {
            assert(data[e] == rest[0]);
        }
    }
    law_entries_exist(data);
    let found = entries_of(data);
    let i = lemma_covering_match(found, 0);
    if i > 0 {
        assert(found[0].end <= found[i].start);
        law_entry_parts_are_in_order(data, found[0]);
    }
    law_entry_is_fixed_by_its_start(data, m, found[0]);
}

proof fn lemma_number_in_place(data: Seq<u8>, digits: Seq<u8>, at: int)
    requires
        are_digits(digits),
        0 <= at,
        at + digits.len() <= data.len(),
        data.subrange(at, at + digits.len()) == digits,
    ensures
        is_number(data, at, at + digits.len()),
{
    assert forall|i: int| at <= i < at + digits.len() implies is_digit(#[trigger] data[i]) by {
        assert(data[i] == digits[i - at]);
    }
}

/// A number written in decimal is read back.
pub proof fn law_number_reads_back(n: nat)
    ensures
        are_digits(decimal(n).map_values(|c: char| c as u8)),
        number_value(decimal(n).map_values(|c: char| c as u8)) == n,
    decreases n,
{
    let bytes = decimal(n).map_values(|c: char| c as u8);
    reveal_with_fuel(number_value, 2);
    if n < 10 {
        assert(bytes =~= seq![(48 + n) as u8]);
        assert(bytes.drop_last() =~= Seq::<u8>::empty());
    } else {
        law_number_reads_back(n / 10);
        let front = decimal(n / 10).map_values(|c: char| c as u8);
        assert(bytes =~= front.push((48 + n % 10) as u8));
        assert(bytes.drop_last() =~= front);
        assert forall|i: int| 0 <= i < bytes.len() implies is_digit(#[trigger] bytes[i]) by {
            if i < front.len() {
                assert(bytes[i] == front[i]);
            }
        }
    }
}

/// `m` with every position `by` lower.
pub open spec fn moved(m: IndexMatch, by: int) -> IndexMatch {
    IndexMatch {
        start: (m.start - by) as usize,
        title: (m.title - by) as usize,
        title_end: (m.title_end - by) as usize,
        fsid: (m.fsid - by) as usize,
        end: (m.end - by) as usize,
    }
}

proof fn lemma_number_moves(data: Seq<u8>, by: int, from: int, to: int)
    requires
        0 <= by <= from,
        is_number(data, from, to),
    ensures
        is_number(data.skip(by), from - by, to - by),
{
    let rest = data.skip(by);
    assert forall|i: int| from - by <= i < to - by implies is_digit(#[trigger] rest[i]) by {
        assert(rest[i] == data[i + by]);
    }
}

pub(crate) proof fn lemma_entry_moves(data: Seq<u8>, by: int, m: IndexMatch)
    requires
        is_entry(data, m),
        0 <= by <= m.start,
    ensures
        is_entry(data.skip(by), moved(m, by)),
        is_whole(data, m) ==> is_whole(data.skip(by), moved(m, by)),
{
    reveal(is_entry);
    let rest = data.skip(by);
    let middle = choose|middle: int| #[trigger]
        is_number_pair(data, m.title_end + 1, middle, m.fsid as int);
    lemma_number_moves(data, by, m.start as int, m.title - 1);
    lemma_number_moves(data, by, m.title_end + 1, middle);
    lemma_number_moves(data, by, middle + 1, m.fsid - 1);
    lemma_number_moves(data, by, m.fsid as int, m.end as int);
    assert(is_number_pair(
        rest,
        moved(m, by).title_end + 1,
        middle - by,
        moved(m, by).fsid as int,
    ));
    assert forall|i: int| m.title - by <= i < m.title_end - by implies #[trigger] rest[i] != COLON
        && rest[i] != 0 by {
        assert(rest[i] == data[i + by]);
    }
}

proof fn lemma_number_moves_back(data: Seq<u8>, by: int, from: int, to: int)
    requires
        0 <= by <= data.len(),
        is_number(data.skip(by), from, to),
    ensures
        is_number(data, from + by, to + by),
{
    let rest = data.skip(by);
    assert forall|i: int| from + by <= i < to + by implies is_digit(#[trigger] data[i]) by {
        assert(data[i] == rest[i - by]);
    }
}

pub(crate) proof fn lemma_entry_moves_back(data: Seq<u8>, by: int, m: IndexMatch)
    requires
        data.len() <= usize::MAX,
        0 <= by <= data.len(),
        is_entry(data.skip(by), m),
    ensures
        is_entry(data, moved(m, -by)),
{
    reveal(is_entry);
    let rest = data.skip(by);
    let middle = choose|middle: int| #[trigger]
        is_number_pair(rest, m.title_end + 1, middle, m.fsid as int);
    lemma_number_moves_back(data, by, m.start as int, m.title - 1);
    lemma_number_moves_back(data, by, m.title_end + 1, middle);
    lemma_number_moves_back(data, by, middle + 1, m.fsid - 1);
    lemma_number_moves_back(data, by, m.fsid as int, m.end as int);
    let back = moved(m, -by);
    assert(is_number_pair(data, back.title_end + 1, middle + by, back.fsid as int));
    assert forall|i: int| m.title + by <= i < m.title_end + by implies #[trigger] data[i] != COLON
        && data[i] != 0 by {
        assert(data[i] == rest[i - by]);
    }
}

/// An index entry of `data` stands at `at`; `m` gives its parts as they lie from
/// there.
pub open spec fn stands_at(data: Seq<u8>, at: int, m: IndexMatch) -> bool {
    &&& 0 <= at <= data.len()
    &&& m.start == 0
    &&& is_entry(data.skip(at), m)
}

/// No entry that stands before `at` reaches beyond it.
pub open spec fn is_clear(data: Seq<u8>, at: int) -> bool {
    forall|from: int, m: IndexMatch| #[trigger]
        stands_at(data, from, m) && from < at ==> from + m.end <= at
}

/// Whether bytes make up an entry does not depend on what follows them.
pub proof fn law_entry_ignores_what_follows(data: Seq<u8>, n: int, m: IndexMatch)
    requires
        0 <= n <= data.len(),
        m.end <= n,
    ensures
        is_entry(data.take(n), m) <==> is_entry(data, m),
{
    reveal(is_entry);
    let front = data.take(n);
    if is_entry(data, m) {
        let middle = choose|middle: int| #[trigger]
            is_number_pair(data, m.title_end + 1, middle, m.fsid as int);
        assert(is_number_pair(front, m.title_end + 1, middle, m.fsid as int));
        assert(is_title(front, m.title as int, m.title_end as int));
    }
    if is_entry(front, m) {
        let middle = choose|middle: int| #[trigger]
            is_number_pair(front, m.title_end + 1, middle, m.fsid as int);
        lemma_number_goes_on(data, n, m.start as int, m.title - 1);
        lemma_number_goes_on(data, n, m.title_end + 1, middle);
        lemma_number_goes_on(data, n, middle + 1, m.fsid - 1);
        lemma_number_goes_on(data, n, m.fsid as int, m.end as int);
        assert(is_number_pair(data, m.title_end + 1, middle, m.fsid as int));
        assert forall|i: int| m.title <= i < m.title_end implies #[trigger] data[i] != COLON
            && data[i] != 0 by {
            assert(data[i] == front[i]);
        }
    }
}

proof fn lemma_number_goes_on(data: Seq<u8>, n: int, from: int, to: int)
    requires
        0 <= n <= data.len(),
        is_number(data.take(n), from, to),
    ensures
        is_number(data, from, to),
{
    assert forall|i: int| from <= i < to implies is_digit(#[trigger] data[i]) by {
        assert(data[i] == data.take(n)[i]);
    }
}

/// Wherever an entry can start, an entry is found that takes in its start.
pub proof fn law_every_entry_is_covered(data: Seq<u8>, m: IndexMatch)
    requires
        data.len() <= usize::MAX,
        is_entry(data, m),
    ensures
        exists|i: int|
            0 <= i < entries_of(data).len() && (#[trigger] entries_of(data)[i]).start <= m.start
                < entries_of(data)[i].end,
{
    law_entries_exist(data);
    let i = lemma_covering_match(entries_of(data), m.start as int);
    assert(entries_of(data)[i].start <= m.start);
}

/// What is found are entries, with all the digits of their fsid, from left to
/// right and without overlap.
pub proof fn law_entries_follow_each_other(data: Seq<u8>, i: int, j: int)
    requires
        data.len() <= usize::MAX,
        0 <= i < j < entries_of(data).len(),
    ensures
        is_entry(data, entries_of(data)[i]),
        entries_of(data)[i].end <= entries_of(data)[j].start,
        !(48 <= data[entries_of(data)[i].end as int] <= 57),
{
    law_entries_exist(data);
    law_entry_parts_are_in_order(data, entries_of(data)[j]);
}

/// An entry is spelled out in the data: a number, the title, two numbers and the
/// fsid, with colons between them; the title has one to ninety bytes, none of
/// them a colon or a NUL.
pub proof fn law_entry_is_spelled_out(data: Seq<u8>, m: IndexMatch)
    requires
        is_entry(data, m),
    ensures
        ({
            let first = data.subrange(m.start as int, m.title - 1);
            let title = data.subrange(m.title as int, m.title_end as int);
            let fsid = data.subrange(m.fsid as int, m.end as int);
            &&& are_digits(first) && are_digits(fsid)
            &&& 1 <= title.len() <= 90
            &&& !title.contains(58) && !title.contains(0)
            &&& exists|second: Seq<u8>, third: Seq<u8>|
                {
                    &&& are_digits(second) && are_digits(third)
                    &&& data.subrange(m.start as int, m.end as int) == #[trigger] entry_bytes(
                        first,
                        title,
                        second,
                        third,
                        fsid,
                    )
                }
        }),
{
    reveal(is_entry);
    let middle = choose|middle: int| #[trigger]
        is_number_pair(data, m.title_end + 1, middle, m.fsid as int);
    let first = data.subrange(m.start as int, m.title - 1);
    let title = data.subrange(m.title as int, m.title_end as int);
    let second = data.subrange(m.title_end + 1, middle);
    let third = data.subrange(middle + 1, m.fsid - 1);
    let fsid = data.subrange(m.fsid as int, m.end as int);
    lemma_digits_in_place(data, m.start as int, m.title - 1);
    lemma_digits_in_place(data, m.title_end + 1, middle);
    lemma_digits_in_place(data, middle + 1, m.fsid - 1);
    lemma_digits_in_place(data, m.fsid as int, m.end as int);
    assert forall|k: int| 0 <= k < title.len() implies title[k] != 58 && title[k] != 0 by {
        assert(title[k] == data[m.title + k]);
    }
    assert(data.subrange(m.start as int, m.end as int) =~= entry_bytes(
        first,
        title,
        second,
        third,
        fsid,
    ));
}

proof fn lemma_digits_in_place(data: Seq<u8>, from: int, to: int)
    requires
        is_number(data, from, to),
    ensures
        are_digits(data.subrange(from, to)),
{
    let part = data.subrange(from, to);
    assert forall|i: int| 0 <= i < part.len() implies is_digit(#[trigger] part[i]) by {
        assert(part[i] == data[from + i]);
    }
}

/// A further digit makes a number ten times as large and adds its own value.
pub proof fn law_digits_are_positional(digits: Seq<u8>, digit: u8)
    requires
        48 <= digit <= 57,
    ensures
        number_value(Seq::empty()) == 0,
        number_value(digits.push(digit)) == 10 * number_value(digits) + (digit - 48),
{
    assert(digits.push(digit).drop_last() =~= digits);
}

} // verus!
