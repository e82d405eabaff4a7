//! Recording titles from TiVo's NowShowing index strings.
//!
//! TiVo stores sortable index entries as plain text in the application region (see
//! [`crate::index_entries`]). These contain both the human-readable title and the
//! recording's fsid, so scanning for them is a very robust way to enumerate
//! recordings. It sidesteps the database object format and the inode/zone traversal
//! entirely, and still works on a partial or damaged image.
//!
//! The raw partition bytes are read directly (no byte-order correction): the
//! index text is stored in natural order, which is how a plain `strings` pass
//! finds it.

use std::collections::HashMap;

use vstd::prelude::*;
use vstd::slice::slice_subrange;
use vstd::utf8::{encode_utf8, encode_utf8_decode_utf8};

use crate::index_entries::{
    are_digits, entries_of, entry_bytes, index_entries, is_clear, is_covered, is_entry, is_title,
    is_whole, law_digits_and_titles_are_told_by_their_bytes, law_entries_exist,
    law_entry_ignores_what_follows, law_entry_is_fixed_by_its_start, law_entry_parts_are_in_order,
    law_entry_reads_back, law_number_reads_back, lemma_covering_match, lemma_entry_moves,
    lemma_entry_moves_back, moved, number_value, parse_number, stands_at, IndexMatch,
};
use crate::order::{in_order, law_sort_keeps_elements, stable_sort, Ranked};
use crate::text::{
    decimal, is_white_space, law_ascii_bytes_are_ascii_characters, law_bytes_stand_for_their_text,
    law_trimming_removes_outer_white_space, pad_right, padded_right, text_of, to_decimal,
    to_uppercase, trim, trimmed, uppercase, utf8_lossy,
};

verus! {

broadcast use vstd::std_specs::hash::group_hash_axioms;

/// Number of *distinct* ASCII letters required for a title to be considered
/// real. Filters out junk like "ffff"/"ffffffff" (one distinct letter) while
/// keeping real titles.
pub const MIN_DISTINCT_LETTERS: usize = 3;

/// How much is read at a time.
pub const CHUNK_BYTES: usize = 8_388_608;

/// Carry-over between chunks so a match spanning a chunk boundary is not lost.
pub const OVERLAP_BYTES: usize = 512;

/// The width of a listed title.
pub const TITLE_COLUMN: usize = 50;

pub open spec fn is_letter(byte: u8) -> bool {
    65 <= byte <= 90 || 97 <= byte <= 122
}

/// A letter in lower case.
pub open spec fn small_letter(byte: u8) -> u8 {
    if 65 <= byte <= 90 {
        (byte + 32) as u8
    } else {
        byte
    }
}

/// The ASCII letters that occur in `bytes`, in lower case.
pub open spec fn letters_in(bytes: Seq<u8>) -> Set<u8> {
    bytes.filter(|b: u8| is_letter(b)).map_values(|b: u8| small_letter(b)).to_set()
}

proof fn lemma_one_more_byte(bytes: Seq<u8>, byte: u8)
    ensures
        letters_in(bytes.push(byte)) == if is_letter(byte) {
            letters_in(bytes).insert(small_letter(byte))
        } else {
            letters_in(bytes)
        },
{
    let keep = |b: u8| is_letter(b);
    let small = |b: u8| small_letter(b);
    Seq::lemma_filter_push(bytes, byte, keep);
    if is_letter(byte) {
        let before = bytes.filter(keep).map_values(small);
        let after = bytes.filter(keep).push(byte).map_values(small);
        assert(after =~= before.push(small_letter(byte)));
        assert(after.to_set() =~= before.to_set().insert(small_letter(byte))) by {
            assert forall|b: u8| before.to_set().insert(small_letter(byte)).contains(b) implies #[trigger] after.to_set().contains(
                b,
            ) by {
                if before.contains(b) {
                    let k = choose|k: int| 0 <= k < before.len() && before[k] == b;
                    assert(after[k] == b);
                } else {
                    assert(after.last() == b);
                }
            }
        }
    }
}

/// A letter occurs in either case or not at all, and nothing else is a letter.
pub proof fn law_letters_are_those_that_occur(bytes: Seq<u8>, c: u8)
    ensures
        letters_in(bytes).finite(),
        letters_in(bytes).contains(c) <==> 97 <= c <= 122 && (bytes.contains(c) || bytes.contains(
            (c - 32) as u8,
        )),
    decreases bytes.len(),
{
    if bytes.len() == 0 {
        reveal(Seq::filter);
        assert(letters_in(bytes) =~= Set::<u8>::empty());
    } else {
        let fewer = bytes.drop_last();
        let last = bytes.last();
        law_letters_are_those_that_occur(fewer, c);
        lemma_one_more_byte(fewer, last);
        assert(fewer.push(last) =~= bytes);
        assert forall|b: u8| #[trigger] bytes.contains(b) <==> fewer.contains(b) || b == last by {
            if bytes.contains(b) {
                let k = choose|k: int| 0 <= k < bytes.len() && bytes[k] == b;
                if k < fewer.len() {
                    assert(fewer[k] == b);
                }
            }
            if fewer.contains(b) {
                let k = choose|k: int| 0 <= k < fewer.len() && fewer[k] == b;
                assert(bytes[k] == b);
            }
            assert(bytes[fewer.len() as int] == last);
        }
    }
}

/// How many different ASCII letters occur in `bytes`, whatever their case.
pub fn distinct_letters(bytes: &[u8]) -> (count: usize)
    ensures
        count == letters_in(bytes@).len(),
        count == Set::new(
            |c: u8|
                97 <= c <= 122 && (bytes@.contains(c) || bytes@.contains((c - 32) as u8)),
        ).len(),
{
    let mut seen: [bool; 26] = [false; 26];
    let mut count: usize = 0;
    let mut i: usize = 0;
    proof {
        reveal(Seq::filter);
        assert(bytes@.take(0) =~= Seq::<u8>::empty());
        assert(letters_in(bytes@.take(0)) =~= Set::<u8>::empty());
    }
    while i < bytes.len()
        invariant
            i <= bytes@.len(),
            count <= i,
            letters_in(bytes@.take(i as int)).finite(),
            count == letters_in(bytes@.take(i as int)).len(),
            forall|k: int|
                0 <= k < 26 ==> #[trigger] seen@[k] == letters_in(bytes@.take(i as int)).contains(
                    (97 + k) as u8,
                ),
        decreases bytes@.len() - i,
    {
        let byte: u8 = bytes[i];
        proof {
            lemma_one_more_byte(bytes@.take(i as int), byte);
            assert(bytes@.take(i + 1) =~= bytes@.take(i as int).push(byte));
        }
        i += 1;
        let letter: Option<u8> = if 65 <= byte && byte <= 90 {
            Some(byte - 65)
        } else if 97 <= byte && byte <= 122 {
            Some(byte - 97)
        } else {
            None
        };
        if let Some(k) = letter {
            assert(small_letter(byte) == 97 + k);
            if !seen[k as usize] {
                seen[k as usize] = true;
                count += 1;
            }
        }
    }
    assert(bytes@.take(i as int) =~= bytes@);
    proof {
        let occurring = Set::new(
            |c: u8|
                97 <= c <= 122 && (bytes@.contains(c) || bytes@.contains((c - 32) as u8)),
        );
        assert forall|c: u8| letters_in(bytes@).contains(c) == occurring.contains(c) by {
            law_letters_are_those_that_occur(bytes@, c);
        }
        assert(letters_in(bytes@) =~= occurring);
    }
    count
}

/// The fsid and the title of an index entry. There are none when the title does
/// not look real, when it is blank, and when the fsid does not fit.
pub open spec fn listing_of(data: Seq<u8>, m: IndexMatch) -> Option<(u64, Seq<char>)> {
    let bytes = data.subrange(m.title as int, m.title_end as int);
    let fsid = number_value(data.subrange(m.fsid as int, m.end as int));
    let title = trimmed(text_of(bytes));
    if letters_in(bytes).len() >= MIN_DISTINCT_LETTERS && fsid <= u64::MAX && title.len() > 0 {
        Some((fsid as u64, title))
    } else {
        None
    }
}

/// Reads the fsid and the title of an index entry.
pub fn read_listing(data: &[u8], m: &IndexMatch) -> (listing: Option<(u64, String)>)
    requires
        is_entry(data@, *m),
    ensures
        listing_of(data@, *m) == (match listing {
            Some(l) => Some((l.0, l.1@)),
            None => None,
        }),
        ({
            let bytes = data@.subrange(m.title as int, m.title_end as int);
            let number = number_value(data@.subrange(m.fsid as int, m.end as int));
            let title = trimmed(text_of(bytes));
            &&& listing is Some <==> letters_in(bytes).len() >= 3 && number <= u64::MAX
                && title.len() > 0
            &&& listing matches Some(l) ==> l.0 == number && l.1@ == title
        }),
{
    proof {
        reveal(is_entry);
    }
    let title_bytes = slice_subrange(data, m.title, m.title_end);
    if distinct_letters(title_bytes) < MIN_DISTINCT_LETTERS {
        return None;
    }
    let fsid: u64 = match parse_number(slice_subrange(data, m.fsid, m.end)) {
        Some(fsid) => fsid,
        None => {
            return None;
        },
    };
    let title = trim(&utf8_lossy(title_bytes));
    if title.as_str().is_empty() {
        return None;
    }
    Some((fsid, title))
}

/// A letter, given in lower case, occurs in a text in either case.
pub open spec fn has_letter(text: Seq<char>, letter: char) -> bool {
    'a' <= letter <= 'z' && (text.contains(letter) || text.contains((letter as int - 32) as char))
}

/// At least three different ASCII letters occur in a text.
pub open spec fn has_three_letters(text: Seq<char>) -> bool {
    exists|a: char, b: char, c: char|
        {
            &&& #[trigger] has_letter(text, a) && #[trigger] has_letter(text, b)
                && #[trigger] has_letter(text, c)
            &&& a != b && b != c && a != c
        }
}

proof fn lemma_letters_of_text(text: Seq<char>, c: u8)
    ensures
        letters_in(encode_utf8(text)).contains(c) <==> has_letter(text, c as char),
{
    law_letters_are_those_that_occur(encode_utf8(text), c);
    if 97 <= c <= 122 {
        law_ascii_bytes_are_ascii_characters(text, c);
        law_ascii_bytes_are_ascii_characters(text, (c - 32) as u8);
        assert((c - 32) as u8 as char == (c as char as int - 32) as char);
    }
}

proof fn lemma_three_letters(text: Seq<char>)
    ensures
        letters_in(encode_utf8(text)).len() >= 3 <==> has_three_letters(text),
{
    broadcast use vstd::set::group_set_axioms;

    let letters = letters_in(encode_utf8(text));
    law_letters_are_those_that_occur(encode_utf8(text), 0);
    if letters.len() >= 3 {
        let x = letters.choose();
        let fewer = letters.remove(x);
        let y = fewer.choose();
        let rest = fewer.remove(y);
        let z = rest.choose();
        assert(letters.contains(x) && letters.contains(y) && letters.contains(z));
        lemma_letters_of_text(text, x);
        lemma_letters_of_text(text, y);
        lemma_letters_of_text(text, z);
        assert(has_letter(text, x as char) && has_letter(text, y as char) && has_letter(
            text,
            z as char,
        ));
        assert(x as char != y as char && y as char != z as char && x as char != z as char);
    }
    if has_three_letters(text) {
        let (a, b, c) = choose|a: char, b: char, c: char|
            {
                &&& #[trigger] has_letter(text, a) && #[trigger] has_letter(text, b)
                    && #[trigger] has_letter(text, c)
                &&& a != b && b != c && a != c
            };
        let (x, y, z) = (a as u8, b as u8, c as u8);
        assert(x as char == a && y as char == b && z as char == c);
        lemma_letters_of_text(text, x);
        lemma_letters_of_text(text, y);
        lemma_letters_of_text(text, z);
        let three = Set::<u8>::empty().insert(x).insert(y).insert(z);
        assert(three.len() == 3);
        vstd::set_lib::lemma_len_subset(three, letters);
    }
}

/// The bytes of a numeral.
pub open spec fn numeral_bytes(n: nat) -> Seq<u8> {
    decimal(n).map_values(|c: char| c as u8)
}

proof fn lemma_title_bytes(title: Seq<char>)
    requires
        title.len() > 0 && !title.contains(':') && !title.contains('\0'),
        encode_utf8(title).len() <= 90,
    ensures
        is_title(encode_utf8(title), 0, encode_utf8(title).len() as int),
{
    let bytes = encode_utf8(title);
    law_ascii_bytes_are_ascii_characters(title, 58);
    law_ascii_bytes_are_ascii_characters(title, 0);
    if bytes.len() == 0 {
        encode_utf8_decode_utf8(title);
        assert(bytes =~= encode_utf8(Seq::<char>::empty()));
        encode_utf8_decode_utf8(Seq::<char>::empty());
    }
    law_digits_and_titles_are_told_by_their_bytes(bytes);
}

/// An entry `<n>:<TITLE>:<n>:<n>:<fsid>` is read as the fsid and the title that
/// were written, all of it, where the title has at least three different letters;
/// with fewer it is not taken for a title at all.
pub proof fn law_written_listing_reads_back(
    first: Seq<u8>,
    title: Seq<char>,
    second: Seq<u8>,
    third: Seq<u8>,
    fsid: u64,
    rest: Seq<u8>,
)
    requires
        entry_bytes(
            first,
            encode_utf8(title),
            second,
            third,
            numeral_bytes(fsid as nat),
        ).len() + rest.len() <= usize::MAX,
        are_digits(first) && are_digits(second) && are_digits(third),
        title.len() > 0 && !title.contains(':') && !title.contains('\0'),
        !is_white_space(title[0]) && !is_white_space(title.last()),
        encode_utf8(title).len() <= 90,
        rest.len() > 0 ==> !(48 <= rest[0] <= 57),
    ensures
        ({
            let data = entry_bytes(
                first,
                encode_utf8(title),
                second,
                third,
                numeral_bytes(fsid as nat),
            ) + rest;
            let m = entries_of(data)[0];
            &&& entries_of(data).len() > 0
            &&& m.start == 0 && m.end == data.len() - rest.len()
            &&& is_entry(data, m) && is_whole(data, m)
            &&& has_three_letters(title) ==> listing_of(data, m) == Some((fsid, title))
            &&& !has_three_letters(title) ==> listing_of(data, m) is None
        }),
{
    let bytes = encode_utf8(title);
    let number = numeral_bytes(fsid as nat);
    let data = entry_bytes(first, bytes, second, third, number) + rest;
    law_number_reads_back(fsid as nat);
    lemma_title_bytes(title);
    law_entry_reads_back(first, bytes, second, third, number, rest);
    let m = entries_of(data)[0];
    assert(trimmed(text_of(bytes)) == title) by {
        law_bytes_stand_for_their_text(bytes);
        law_trimming_removes_outer_white_space(title);
    }
    assert(letters_in(bytes).len() >= 3 <==> has_three_letters(title)) by {
        lemma_three_letters(title);
    }
    assert(data.subrange(m.title as int, m.title_end as int) == bytes);
    assert(number_value(data.subrange(m.fsid as int, m.end as int)) == fsid);
}

/// The titles with one more. The longest seen for a given recording is kept:
/// boundary or partial matches yield shorter fragments of the same title.
pub open spec fn noted(
    found: Map<u64, Seq<char>>,
    fsid: u64,
    title: Seq<char>,
) -> Map<u64, Seq<char>> {
    if found.contains_key(fsid) && encode_utf8(title).len() <= encode_utf8(found[fsid]).len() {
        found
    } else {
        found.insert(fsid, title)
    }
}

/// The titles with those of all the entries.
pub open spec fn all_noted(
    found: Map<u64, Seq<char>>,
    data: Seq<u8>,
    matches: Seq<IndexMatch>,
) -> Map<u64, Seq<char>>
    decreases matches.len(),
{
    if matches.len() == 0 {
        found
    } else {
        let earlier = all_noted(found, data, matches.drop_last());
        match listing_of(data, matches.last()) {
            Some((fsid, title)) => noted(earlier, fsid, title),
            None => earlier,
        }
    }
}

/// The titles with those that the index entries of `data` give.
pub open spec fn window_noted(found: Map<u64, Seq<char>>, data: Seq<u8>) -> Map<u64, Seq<char>> {
    all_noted(found, data, entries_of(data))
}

/// The titles found, by fsid.
pub struct Titles {
    pub found: HashMap<u64, String>,
}

impl View for Titles {
    type V = Map<u64, Seq<char>>;

    open spec fn view(&self) -> Map<u64, Seq<char>> {
        self.found@.map_values(|t: String| t@)
    }
}

impl Titles {
    pub fn new() -> (titles: Titles)
        ensures
            titles@ == Map::<u64, Seq<char>>::empty(),
    {
        let titles = Titles { found: HashMap::new() };
        assert(titles@ =~= Map::<u64, Seq<char>>::empty());
        titles
    }

    /// Notes a title.
    pub fn note(&mut self, fsid: u64, title: String)
        ensures
            final(self)@ == noted(old(self)@, fsid, title@),
            old(self)@.contains_key(fsid) && encode_utf8(title@).len() <= encode_utf8(
                old(self)@[fsid],
            ).len() ==> final(self)@ == old(self)@,
            !old(self)@.contains_key(fsid) || encode_utf8(title@).len() > encode_utf8(
                old(self)@[fsid],
            ).len() ==> final(self)@ == old(self)@.insert(fsid, title@),
    {
        let longer = match self.found.get(&fsid) {
            Some(existing) => title.as_str().as_bytes().len() > existing.as_str().as_bytes().len(),
            None => true,
        };
        if longer {
            let ghost before = self@;
            self.found.insert(fsid, title);
            assert(self@ =~= before.insert(fsid, title@));
        }
    }

    /// Notes the titles of all index entries of `data`.
    pub fn note_window(&mut self, data: &[u8])
        ensures
            final(self)@ == window_noted(old(self)@, data@),
            final(self)@ == all_noted(old(self)@, data@, entries_of(data@)),
    {
        let matches = index_entries(data);
        let ghost before = self@;
        let mut i: usize = 0;
        assert(matches@.take(0) =~= Seq::<IndexMatch>::empty());
        while i < matches.len()
            invariant
                i <= matches@.len(),
                forall|k: int| 0 <= k < matches@.len() ==> is_entry(data@, #[trigger] matches@[k]),
                self@ == all_noted(before, data@, matches@.take(i as int)),
            decreases matches@.len() - i,
        {
            let listing = read_listing(data, &matches[i]);
            i += 1;
            proof {
                let taken = matches@.take(i as int);
                assert(taken.drop_last() =~= matches@.take(i - 1));
                assert(taken.last() == matches@[i - 1]);
            }
            if let Some((fsid, title)) = listing {
                self.note(fsid, title);
            }
        }
        assert(matches@.take(i as int) =~= matches@);
    }
}

/// What is said of titles is said of all that are held, each in full.
pub proof fn law_view_holds_every_title(titles: Titles, fsid: u64)
    ensures
        titles@.contains_key(fsid) <==> titles.found@.contains_key(fsid),
        titles.found@.contains_key(fsid) ==> titles@[fsid] == titles.found@[fsid]@,
{
}

/// The last `n` bytes of `data`, or all of them if there are fewer.
pub open spec fn tail(data: Seq<u8>, n: int) -> Seq<u8> {
    if data.len() <= n {
        data
    } else {
        data.skip(data.len() - n)
    }
}

/// A partition being scanned: how much of it is left, and the end of what has
/// been read.
pub struct RangeScan {
    pub remaining: u64,
    pub carry: Vec<u8>,
}

impl RangeScan {
    /// A scan of `length` bytes.
    pub fn new(length: u64) -> (scan: RangeScan)
        ensures
            scan.remaining == length,
            scan.carry@ == Seq::<u8>::empty(),
    {
        RangeScan { remaining: length, carry: Vec::new() }
    }

    /// How many bytes to read next; none at the end.
    pub fn wanted(&self) -> (count: usize)
        ensures
            count == if self.remaining < CHUNK_BYTES {
                self.remaining as int
            } else {
                CHUNK_BYTES as int
            },
            self.remaining < 8_388_608 ==> count == self.remaining,
            self.remaining >= 8_388_608 ==> count == 8_388_608,
    {
        if self.remaining < CHUNK_BYTES as u64 {
            self.remaining as usize
        } else {
            CHUNK_BYTES
        }
    }

    /// Takes the bytes read. The previous tail is prepended so that matches
    /// spanning the boundary are caught.
    pub fn take_chunk(&mut self, chunk: &[u8], titles: &mut Titles)
        requires
            chunk@.len() <= old(self).remaining,
        ensures
            final(self).remaining == old(self).remaining - chunk@.len(),
            final(self).carry@ == tail(old(self).carry@ + chunk@, OVERLAP_BYTES as int),
            final(titles)@ == window_noted(old(titles)@, old(self).carry@ + chunk@),
            old(self).carry@.len() + chunk@.len() <= 512 ==> final(self).carry@ == old(self).carry@
                + chunk@,
            old(self).carry@.len() + chunk@.len() > 512 ==> final(self).carry@.len() == 512
                && final(self).carry@ == (old(self).carry@ + chunk@).skip(
                old(self).carry@.len() + chunk@.len() - 512,
            ),
    {
        self.remaining = self.remaining - chunk.len() as u64;
        let mut data: Vec<u8> = Vec::new();
        std::mem::swap(&mut data, &mut self.carry);
        data.extend_from_slice(chunk);
        assert(data@ =~= old(self).carry@ + chunk@);
        titles.note_window(&data);
        if data.len() > OVERLAP_BYTES {
            let at: usize = data.len() - OVERLAP_BYTES;
            let ghost whole = data@;
            let kept = data.split_off(at);
            assert(kept@ =~= tail(whole, OVERLAP_BYTES as int));
            self.carry = kept;
        } else {
            self.carry = data;
        }
    }
}

/// A window is the end of what was read before and what is read now, however
/// that was cut into chunks.
pub proof fn law_carry_is_the_tail(read: Seq<u8>, chunk: Seq<u8>)
    ensures
        tail(tail(read, OVERLAP_BYTES as int) + chunk, OVERLAP_BYTES as int) == tail(
            read + chunk,
            OVERLAP_BYTES as int,
        ),
{
    assert(tail(tail(read, OVERLAP_BYTES as int) + chunk, OVERLAP_BYTES as int) =~= tail(
        read + chunk,
        OVERLAP_BYTES as int,
    ));
}

/// The chunks one after the other.
pub open spec fn all_read(chunks: Seq<Seq<u8>>) -> Seq<u8>
    decreases chunks.len(),
{
    if chunks.len() == 0 {
        Seq::empty()
    } else {
        all_read(chunks.drop_last()) + chunks.last()
    }
}

/// What a scan carries over, and the titles there are.
pub struct RangeNotes {
    pub carry: Seq<u8>,
    pub titles: Map<u64, Seq<char>>,
}

/// A scan that takes all the chunks, in order.
pub open spec fn range_scanned(
    found: Map<u64, Seq<char>>,
    chunks: Seq<Seq<u8>>,
) -> RangeNotes
    decreases chunks.len(),
{
    if chunks.len() == 0 {
        RangeNotes { carry: Seq::empty(), titles: found }
    } else {
        let before = range_scanned(found, chunks.drop_last());
        let window = before.carry + chunks.last();
        RangeNotes {
            carry: tail(window, OVERLAP_BYTES as int),
            titles: window_noted(before.titles, window),
        }
    }
}

/// One more chunk takes a scan from what the chunks so far leave to what all of
/// them leave, and what it carries over is the end of all it has read.
pub proof fn law_scan_goes_chunk_by_chunk(
    found: Map<u64, Seq<char>>,
    chunks: Seq<Seq<u8>>,
    chunk: Seq<u8>,
)
    ensures
        range_scanned(found, chunks).carry == tail(all_read(chunks), OVERLAP_BYTES as int),
        range_scanned(found, chunks.push(chunk)).carry == tail(
            range_scanned(found, chunks).carry + chunk,
            OVERLAP_BYTES as int,
        ),
        range_scanned(found, chunks.push(chunk)).titles == window_noted(
            range_scanned(found, chunks).titles,
            range_scanned(found, chunks).carry + chunk,
        ),
    decreases chunks.len(),
{
    assert(chunks.push(chunk).drop_last() =~= chunks);
    if chunks.len() > 0 {
        law_scan_goes_chunk_by_chunk(found, chunks.drop_last(), chunks.last());
        law_carry_is_the_tail(all_read(chunks.drop_last()), chunks.last());
        assert(chunks.drop_last().push(chunks.last()) =~= chunks);
    }
}

/// No entry is lost between two chunks: one of at most the length of the
/// carry-over that ends in the chunk just read lies in the window as a whole,
/// and an entry found there covers its start.
pub proof fn law_window_holds_what_spans_it(
    read: Seq<u8>,
    chunk: Seq<u8>,
    at: int,
    m: IndexMatch,
)
    requires
        OVERLAP_BYTES + chunk.len() <= usize::MAX,
        stands_at(read + chunk, at, m),
        read.len() < at + m.end,
        m.end <= OVERLAP_BYTES,
    ensures
        ({
            let window = tail(read, OVERLAP_BYTES as int) + chunk;
            let by = read.len() + chunk.len() - window.len();
            let here = moved(m, by - at);
            &&& by <= at
            &&& here.start == at - by
            &&& is_entry(window, here)
            &&& is_whole((read + chunk).skip(at), m) ==> is_whole(window, here)
            &&& is_covered(entries_of(window), at - by)
        }),
{
    let window = tail(read, OVERLAP_BYTES as int) + chunk;
    let by = read.len() + chunk.len() - window.len();
    assert(window =~= (read + chunk).skip(by));
    assert(window.skip(at - by) =~= (read + chunk).skip(at));
    law_entry_parts_are_in_order(window.skip(at - by), m);
    lemma_entry_moves_back(window, at - by, m);
    law_entries_exist(window);
    assert(is_entry(window, moved(m, by - at)));
}

/// Further entries neither remove a title nor shorten it.
pub proof fn law_titles_never_shrink(
    found: Map<u64, Seq<char>>,
    data: Seq<u8>,
    matches: Seq<IndexMatch>,
    fsid: u64,
)
    requires
        found.contains_key(fsid),
    ensures
        all_noted(found, data, matches).contains_key(fsid),
        encode_utf8(all_noted(found, data, matches)[fsid]).len() >= encode_utf8(found[fsid]).len(),
    decreases matches.len(),
{
    if matches.len() > 0 {
        law_titles_never_shrink(found, data, matches.drop_last(), fsid);
    }
}

/// No title that an entry gives for an fsid is longer than the one kept.
pub proof fn law_longest_title_is_kept(
    found: Map<u64, Seq<char>>,
    data: Seq<u8>,
    matches: Seq<IndexMatch>,
    i: int,
    fsid: u64,
)
    requires
        0 <= i < matches.len(),
        listing_of(data, matches[i]) is Some,
        (listing_of(data, matches[i])->0).0 == fsid,
    ensures
        all_noted(found, data, matches).contains_key(fsid),
        encode_utf8(all_noted(found, data, matches)[fsid]).len() >= encode_utf8(
            (listing_of(data, matches[i])->0).1,
        ).len(),
    decreases matches.len(),
{
    if i < matches.len() - 1 {
        law_longest_title_is_kept(found, data, matches.drop_last(), i, fsid);
    }
}

proof fn lemma_listing_moves(window: Seq<u8>, by: int, m: IndexMatch)
    requires
        window.len() <= usize::MAX,
        0 <= by <= window.len(),
        is_entry(window.skip(by), m),
    ensures
        listing_of(window, moved(m, -by)) == listing_of(window.skip(by), m),
{
    let rest = window.skip(by);
    let here = moved(m, -by);
    law_entry_parts_are_in_order(rest, m);
    assert(window.subrange(here.title as int, here.title_end as int) =~= rest.subrange(
        m.title as int,
        m.title_end as int,
    ));
    assert(window.subrange(here.fsid as int, here.end as int) =~= rest.subrange(
        m.fsid as int,
        m.end as int,
    ));
}

/// Whether a title as long as that of the listing is noted for its fsid.
pub open spec fn is_noted(titles: Map<u64, Seq<char>>, listing: (u64, Seq<char>)) -> bool {
    titles.contains_key(listing.0) && encode_utf8(titles[listing.0]).len() >= encode_utf8(
        listing.1,
    ).len()
}

/// No title is lost between two chunks: the title of an entry of at most the
/// length of the carry-over that ends in the chunk just read is noted, unless
/// an entry before it reaches into it.
pub proof fn law_no_title_is_lost_between_chunks(
    found: Map<u64, Seq<char>>,
    read: Seq<u8>,
    chunk: Seq<u8>,
    at: int,
    m: IndexMatch,
)
    requires
        OVERLAP_BYTES + chunk.len() <= usize::MAX,
        stands_at(read + chunk, at, m),
        is_whole((read + chunk).skip(at), m),
        is_clear(read + chunk, at),
        read.len() < at + m.end,
        m.end <= OVERLAP_BYTES,
        listing_of((read + chunk).skip(at), m) is Some,
    ensures
        is_noted(
            window_noted(found, tail(read, OVERLAP_BYTES as int) + chunk),
            listing_of((read + chunk).skip(at), m)->0,
        ),
{
    let data = read + chunk;
    let window = tail(read, OVERLAP_BYTES as int) + chunk;
    let by = data.len() - window.len();
    let here = moved(m, by - at);
    law_window_holds_what_spans_it(read, chunk, at, m);
    assert(window =~= data.skip(by));
    assert(window.skip(at - by) =~= data.skip(at));
    law_entries_exist(window);
    let matches = entries_of(window);
    let i = lemma_covering_match(matches, at - by);
    let cover = matches[i];
    law_entry_parts_are_in_order(window, cover);
    if cover.start < at - by {
        let from = by + cover.start;
        lemma_entry_moves(window, cover.start as int, cover);
        assert(window.skip(cover.start as int) =~= data.skip(from));
        assert(stands_at(data, from, moved(cover, cover.start as int)));
    }
    law_entry_is_fixed_by_its_start(window, cover, here);
    lemma_listing_moves(window, at - by, m);
    law_longest_title_is_kept(found, window, matches, i, (listing_of(window, here)->0).0);
}

/// However a partition is cut into chunks, no title of it is lost: at the end the
/// title of every entry of at most the length of the carry-over is noted, unless
/// an entry before it reaches into it.
pub proof fn law_no_title_is_lost(
    found: Map<u64, Seq<char>>,
    chunks: Seq<Seq<u8>>,
    at: int,
    m: IndexMatch,
)
    requires
        forall|i: int|
            0 <= i < chunks.len() ==> OVERLAP_BYTES + (#[trigger] chunks[i]).len() <= usize::MAX,
        stands_at(all_read(chunks), at, m),
        is_whole(all_read(chunks).skip(at), m),
        is_clear(all_read(chunks), at),
        m.end <= OVERLAP_BYTES,
        listing_of(all_read(chunks).skip(at), m) is Some,
    ensures
        is_noted(
            range_scanned(found, chunks).titles,
            listing_of(all_read(chunks).skip(at), m)->0,
        ),
    decreases chunks.len(),
{
    let data = all_read(chunks);
    law_entry_parts_are_in_order(data.skip(at), m);
    assert(chunks.len() > 0);
    let fewer = chunks.drop_last();
    let read = all_read(fewer);
    let before = range_scanned(found, fewer);
    let window = before.carry + chunks.last();
    law_scan_goes_chunk_by_chunk(found, fewer, chunks.last());
    assert(chunks[chunks.len() - 1] == chunks.last());
    if read.len() < at + m.end {
        law_no_title_is_lost_between_chunks(before.titles, read, chunks.last(), at, m);
    } else {
        assert forall|i: int| 0 <= i < fewer.len() implies OVERLAP_BYTES + (
        #[trigger] fewer[i]).len() <= usize::MAX by {
            assert(fewer[i] == chunks[i]);
        }
        let n = read.len() as int;
        assert(read =~= data.take(n));
        assert(read.skip(at) =~= data.skip(at).take(n - at));
        law_entry_ignores_what_follows(data.skip(at), n - at, m);
        assert(read.skip(at).subrange(m.title as int, m.title_end as int) =~= data.skip(
            at,
        ).subrange(m.title as int, m.title_end as int));
        assert(read.skip(at).subrange(m.fsid as int, m.end as int) =~= data.skip(at).subrange(
            m.fsid as int,
            m.end as int,
        ));
        assert forall|from: int, e: IndexMatch| #[trigger]
            stands_at(read, from, e) && from < at implies from + e.end <= at by {
            law_entry_parts_are_in_order(read.skip(from), e);
            assert(read.skip(from) =~= data.skip(from).take(n - from));
            law_entry_ignores_what_follows(data.skip(from), n - from, e);
            assert(stands_at(data, from, e));
        }
        law_no_title_is_lost(found, fewer, at, m);
        let fsid = (listing_of(data.skip(at), m)->0).0;
        law_titles_never_shrink(before.titles, window, entries_of(window), fsid);
    }
}

/// However a partition is cut into chunks, a title written in it as an entry of
/// at most 512 bytes is noted at the end under the fsid written with it: all of
/// it, unless a longer one was given for that fsid. That holds where no entry
/// before it reaches into it and no digit follows it.
pub proof fn law_written_title_is_not_lost(
    found: Map<u64, Seq<char>>,
    chunks: Seq<Seq<u8>>,
    before: Seq<u8>,
    first: Seq<u8>,
    title: Seq<char>,
    second: Seq<u8>,
    third: Seq<u8>,
    fsid: u64,
    rest: Seq<u8>,
)
    requires
        forall|i: int|
            0 <= i < chunks.len() ==> 512 + (#[trigger] chunks[i]).len() <= usize::MAX,
        all_read(chunks) == before + (entry_bytes(
            first,
            encode_utf8(title),
            second,
            third,
            numeral_bytes(fsid as nat),
        ) + rest),
        entry_bytes(
            first,
            encode_utf8(title),
            second,
            third,
            numeral_bytes(fsid as nat),
        ).len() <= 512,
        is_clear(all_read(chunks), before.len() as int),
        are_digits(first) && are_digits(second) && are_digits(third),
        title.len() > 0 && !title.contains(':') && !title.contains('\0'),
        !is_white_space(title[0]) && !is_white_space(title.last()),
        encode_utf8(title).len() <= 90,
        has_three_letters(title),
        rest.len() > 0 ==> !(48 <= rest[0] <= 57),
    ensures
        ({
            let titles = range_scanned(found, chunks).titles;
            titles.contains_key(fsid) && encode_utf8(titles[fsid]).len() >= encode_utf8(title).len()
        }),
{
    let entry = entry_bytes(
        first,
        encode_utf8(title),
        second,
        third,
        numeral_bytes(fsid as nat),
    );
    let none = Seq::<u8>::empty();
    let data = all_read(chunks);
    let at = before.len() as int;
    law_written_listing_reads_back(first, title, second, third, fsid, none);
    assert(entry + none =~= entry);
    let m = entries_of(entry)[0];
    assert(data.skip(at) =~= entry + rest);
    assert((entry + rest).take(entry.len() as int) =~= entry);
    law_entry_parts_are_in_order(entry, m);
    law_entry_ignores_what_follows(entry + rest, entry.len() as int, m);
    assert(is_whole(data.skip(at), m)) by {
        if rest.len() > 0 {
            assert((entry + rest)[entry.len() as int] == rest[0]);
        }
    }
    assert((entry + rest).subrange(m.title as int, m.title_end as int) =~= entry.subrange(
        m.title as int,
        m.title_end as int,
    ));
    assert((entry + rest).subrange(m.fsid as int, m.end as int) =~= entry.subrange(
        m.fsid as int,
        m.end as int,
    ));
    law_no_title_is_lost(found, chunks, at, m);
}

/// How long the title is that an entry gives for the fsid, in bytes; below zero
/// where it gives none.
pub open spec fn given_len(data: Seq<u8>, m: IndexMatch, fsid: u64) -> int {
    match listing_of(data, m) {
        Some((f, title)) => if f == fsid {
            encode_utf8(title).len() as int
        } else {
            -1
        },
        None => -1,
    }
}

/// Entry `i` gives `kept` for the fsid. It is longer than what was there before and
/// than what the entries before give, and no shorter than what those behind give.
pub open spec fn is_first_longest(
    found: Map<u64, Seq<char>>,
    data: Seq<u8>,
    matches: Seq<IndexMatch>,
    fsid: u64,
    kept: Seq<char>,
    i: int,
) -> bool {
    &&& 0 <= i < matches.len()
    &&& listing_of(data, matches[i]) == Some((fsid, kept))
    &&& found.contains_key(fsid) ==> encode_utf8(found[fsid]).len() < encode_utf8(kept).len()
    &&& forall|j: int|
        0 <= j < i ==> given_len(data, #[trigger] matches[j], fsid) < encode_utf8(kept).len()
    &&& forall|j: int|
        i < j < matches.len() ==> given_len(data, #[trigger] matches[j], fsid) <= encode_utf8(
            kept,
        ).len()
}

/// The title kept for an fsid is the first of the longest: it was there before
/// and no entry gives a longer one, or an entry gives it that is the first to give
/// one of that length.
pub proof fn law_first_of_the_longest_titles_is_kept(
    found: Map<u64, Seq<char>>,
    data: Seq<u8>,
    matches: Seq<IndexMatch>,
    fsid: u64,
)
    requires
        all_noted(found, data, matches).contains_key(fsid),
    ensures
        ({
            let kept = all_noted(found, data, matches)[fsid];
            ||| {
                &&& found.contains_key(fsid) && found[fsid] == kept
                &&& forall|j: int|
                    0 <= j < matches.len() ==> given_len(data, #[trigger] matches[j], fsid)
                        <= encode_utf8(kept).len()
            }
            ||| exists|i: int| #[trigger]
                is_first_longest(found, data, matches, fsid, kept, i)
        }),
    decreases matches.len(),
{
    if matches.len() > 0 {
        let fewer = matches.drop_last();
        let last = matches.len() - 1;
        let earlier = all_noted(found, data, fewer);
        let kept = all_noted(found, data, matches)[fsid];
        assert(matches.last() == matches[last]);
        if earlier.contains_key(fsid) && given_len(data, matches[last], fsid) <= encode_utf8(
            earlier[fsid],
        ).len() {
            assert(kept == earlier[fsid]);
            law_first_of_the_longest_titles_is_kept(found, data, fewer, fsid);
            if exists|i: int| #[trigger] is_first_longest(found, data, fewer, fsid, kept, i) {
                let i = choose|i: int| #[trigger]
                    is_first_longest(found, data, fewer, fsid, kept, i);
                lemma_first_longest_stays(found, data, matches, fsid, kept, i);
            } else {
                assert forall|j: int| 0 <= j < matches.len() implies given_len(
                    data,
                    #[trigger] matches[j],
                    fsid,
                ) <= encode_utf8(kept).len() by {
                    if j < last {
                        assert(fewer[j] == matches[j]);
                    }
                }
            }
        } else {
            lemma_last_is_longest(found, data, matches, fsid);
        }
    }
}

proof fn lemma_first_longest_stays(
    found: Map<u64, Seq<char>>,
    data: Seq<u8>,
    matches: Seq<IndexMatch>,
    fsid: u64,
    kept: Seq<char>,
    i: int,
)
    requires
        matches.len() > 0,
        is_first_longest(found, data, matches.drop_last(), fsid, kept, i),
        given_len(data, matches.last(), fsid) <= encode_utf8(kept).len(),
    ensures
        is_first_longest(found, data, matches, fsid, kept, i),
{
    let fewer = matches.drop_last();
    assert(fewer[i] == matches[i]);
    assert forall|j: int| 0 <= j < i implies given_len(data, #[trigger] matches[j], fsid)
        < encode_utf8(kept).len() by {
        assert(fewer[j] == matches[j]);
    }
    assert forall|j: int| i < j < matches.len() implies given_len(data, #[trigger] matches[j], fsid)
        <= encode_utf8(kept).len() by {
        if j < fewer.len() {
            assert(fewer[j] == matches[j]);
        }
    }
}

proof fn lemma_last_is_longest(
    found: Map<u64, Seq<char>>,
    data: Seq<u8>,
    matches: Seq<IndexMatch>,
    fsid: u64,
)
    requires
        matches.len() > 0,
        all_noted(found, data, matches).contains_key(fsid),
        all_noted(found, data, matches.drop_last()).contains_key(fsid) ==> given_len(
            data,
            matches.last(),
            fsid,
        ) > encode_utf8(all_noted(found, data, matches.drop_last())[fsid]).len(),
    ensures
        is_first_longest(
            found,
            data,
            matches,
            fsid,
            all_noted(found, data, matches)[fsid],
            matches.len() - 1,
        ),
{
    let fewer = matches.drop_last();
    let earlier = all_noted(found, data, fewer);
    let last = matches.len() - 1;
    let kept = all_noted(found, data, matches)[fsid];
    assert(matches.last() == matches[last]);
    assert(listing_of(data, matches[last]) == Some((fsid, kept)));
    if found.contains_key(fsid) {
        law_titles_never_shrink(found, data, fewer, fsid);
    }
    assert forall|j: int| 0 <= j < last implies given_len(data, #[trigger] matches[j], fsid)
        < encode_utf8(kept).len() by {
        assert(fewer[j] == matches[j]);
        if given_len(data, matches[j], fsid) >= 0 {
            law_longest_title_is_kept(found, data, fewer, j, fsid);
        }
    }
}

/// Every title was there before, or an entry gave it.
pub proof fn law_titles_come_from_entries(
    found: Map<u64, Seq<char>>,
    data: Seq<u8>,
    matches: Seq<IndexMatch>,
    fsid: u64,
)
    requires
        all_noted(found, data, matches).contains_key(fsid),
    ensures
        ({
            let title = all_noted(found, data, matches)[fsid];
            ||| found.contains_key(fsid) && found[fsid] == title
            ||| exists|i: int|
                0 <= i < matches.len() && listing_of(data, #[trigger] matches[i]) == Some(
                    (fsid, title),
                )
        }),
    decreases matches.len(),
{
    if matches.len() > 0 {
        let fewer = matches.drop_last();
        let earlier = all_noted(found, data, fewer);
        let title = all_noted(found, data, matches)[fsid];
        if earlier.contains_key(fsid) && earlier[fsid] == title {
            law_titles_come_from_entries(found, data, fewer, fsid);
            if !(found.contains_key(fsid) && found[fsid] == title) {
                let i = choose|i: int|
                    0 <= i < fewer.len() && listing_of(data, #[trigger] fewer[i]) == Some(
                        (fsid, title),
                    );
                assert(matches[i] == fewer[i]);
            }
        } else {
            assert(listing_of(data, matches[matches.len() - 1]) == Some((fsid, title)));
        }
    }
}

/// `a` comes before `b` in the order of their bytes, or is the same.
pub open spec fn bytes_lead(a: Seq<u8>, b: Seq<u8>) -> bool
    decreases a.len(),
{
    if a.len() == 0 {
        true
    } else if b.len() == 0 {
        false
    } else if a[0] == b[0] {
        bytes_lead(a.drop_first(), b.drop_first())
    } else {
        a[0] < b[0]
    }
}

proof fn lemma_bytes_lead_is_total(a: Seq<u8>, b: Seq<u8>)
    ensures
        bytes_lead(a, b) || bytes_lead(b, a),
        bytes_lead(a, b) && bytes_lead(b, a) ==> a == b,
    decreases a.len(),
{
    if a.len() > 0 && b.len() > 0 {
        if a[0] == b[0] {
            lemma_bytes_lead_is_total(a.drop_first(), b.drop_first());
            assert(a =~= seq![a[0]] + a.drop_first());
            assert(b =~= seq![b[0]] + b.drop_first());
        }
    } else if a.len() == 0 && b.len() == 0 {
        assert(a =~= b);
    }
}

proof fn lemma_bytes_lead_is_transitive(a: Seq<u8>, b: Seq<u8>, c: Seq<u8>)
    requires
        bytes_lead(a, b),
        bytes_lead(b, c),
    ensures
        bytes_lead(a, c),
    decreases a.len(),
{
    if a.len() > 0 && b.len() > 0 && c.len() > 0 && a[0] == b[0] && b[0] == c[0] {
        lemma_bytes_lead_is_transitive(a.drop_first(), b.drop_first(), c.drop_first());
    }
}

fn check_bytes_lead(a: &[u8], b: &[u8]) -> (r: bool)
    ensures
        r == bytes_lead(a@, b@),
{
    let mut i: usize = 0;
    assert(a@.skip(0) =~= a@ && b@.skip(0) =~= b@);
    while i < a.len() && i < b.len()
        invariant
            i <= a@.len(),
            i <= b@.len(),
            bytes_lead(a@, b@) == bytes_lead(a@.skip(i as int), b@.skip(i as int)),
        decreases a@.len() - i,
    {
        assert(a@.skip(i as int)[0] == a@[i as int]);
        assert(b@.skip(i as int)[0] == b@[i as int]);
        if a[i] != b[i] {
            return a[i] < b[i];
        }
        i += 1;
        assert(a@.skip(i - 1).drop_first() =~= a@.skip(i as int));
        assert(b@.skip(i - 1).drop_first() =~= b@.skip(i as int));
    }
    i == a.len()
}

/// Bytes come before others where they are the start of them, or where the first
/// byte that differs is smaller.
pub proof fn law_bytes_are_ordered_as_in_a_dictionary(a: Seq<u8>, b: Seq<u8>)
    ensures
        bytes_lead(a, b) <==> {
            ||| a.len() <= b.len() && a == b.take(a.len() as int)
            ||| exists|k: int|
                {
                    &&& 0 <= k < a.len() && k < b.len()
                    &&& #[trigger] a[k] < b[k]
                    &&& a.take(k) == b.take(k)
                }
        },
    decreases a.len(),
{
    if a.len() == 0 {
        assert(a =~= b.take(0));
    } else if b.len() > 0 {
        let x = a.drop_first();
        let y = b.drop_first();
        if a[0] == b[0] {
            law_bytes_are_ordered_as_in_a_dictionary(x, y);
            assert(a =~= seq![a[0]] + x && b =~= seq![b[0]] + y);
            if x.len() <= y.len() {
                assert(b.take(a.len() as int) =~= seq![b[0]] + y.take(x.len() as int));
                if a == b.take(a.len() as int) {
                    assert(x =~= a.skip(1));
                    assert(y.take(x.len() as int) =~= b.take(a.len() as int).skip(1));
                }
            }
            if exists|k: int|
                0 <= k < x.len() && k < y.len() && #[trigger] x[k] < y[k] && x.take(k) == y.take(k) {
                let k = choose|k: int|
                    0 <= k < x.len() && k < y.len() && #[trigger] x[k] < y[k] && x.take(k)
                        == y.take(k);
                assert(a[k + 1] < b[k + 1]);
                assert(a.take(k + 1) =~= seq![a[0]] + x.take(k));
                assert(b.take(k + 1) =~= seq![b[0]] + y.take(k));
            }
            if exists|k: int|
                0 <= k < a.len() && k < b.len() && #[trigger] a[k] < b[k] && a.take(k) == b.take(k) {
                let k = choose|k: int|
                    0 <= k < a.len() && k < b.len() && #[trigger] a[k] < b[k] && a.take(k)
                        == b.take(k);
                assert(k > 0);
                assert(x[k - 1] < y[k - 1]);
                assert(x.take(k - 1) =~= a.take(k).skip(1));
                assert(y.take(k - 1) =~= b.take(k).skip(1));
            }
        } else {
            if a[0] < b[0] {
                assert(a.take(0) =~= b.take(0));
            }
            if a.len() <= b.len() && a == b.take(a.len() as int) {
                assert(a[0] == b.take(a.len() as int)[0]);
            }
            if exists|k: int|
                0 <= k < a.len() && k < b.len() && #[trigger] a[k] < b[k] && a.take(k) == b.take(k) {
                let k = choose|k: int|
                    0 <= k < a.len() && k < b.len() && #[trigger] a[k] < b[k] && a.take(k)
                        == b.take(k);
                if k > 0 {
                    assert(a.take(k)[0] == b.take(k)[0]);
                }
            }
        }
    }
}

/// A recording as it is listed by title.
pub struct TitleRow {
    pub fsid: u64,
    pub title: String,
}

impl TitleRow {
    /// By what a row is ordered: its title in upper case.
    pub open spec fn sort_key(self) -> Seq<u8> {
        encode_utf8(uppercase(self.title@))
    }
}

impl Ranked for TitleRow {
    /// By title, whatever its case, and by fsid where the titles are the same.
    open spec fn leads(self, other: Self) -> bool {
        if self.sort_key() == other.sort_key() {
            self.fsid <= other.fsid
        } else {
            bytes_lead(self.sort_key(), other.sort_key())
        }
    }

    proof fn leads_is_total(a: Self, b: Self) {
        lemma_bytes_lead_is_total(a.sort_key(), b.sort_key());
    }

    proof fn leads_is_transitive(a: Self, b: Self, c: Self) {
        if a.sort_key() != b.sort_key() && b.sort_key() != c.sort_key() {
            lemma_bytes_lead_is_transitive(a.sort_key(), b.sort_key(), c.sort_key());
            lemma_bytes_lead_is_total(a.sort_key(), b.sort_key());
        }
    }

    fn check_leads(&self, other: &Self) -> (r: bool) {
        let ours = to_uppercase(&self.title);
        let theirs = to_uppercase(&other.title);
        let a = ours.as_str().as_bytes();
        let b = theirs.as_str().as_bytes();
        proof {
            lemma_bytes_lead_is_total(a@, b@);
        }
        if !check_bytes_lead(a, b) {
            false
        } else if !check_bytes_lead(b, a) {
            true
        } else {
            self.fsid <= other.fsid
        }
    }
}

/// Every row gives an fsid and its title, and no fsid twice.
pub open spec fn lists_titles(rows: Seq<TitleRow>, found: Map<u64, Seq<char>>) -> bool {
    &&& forall|i: int|
        0 <= i < rows.len() ==> found.contains_key((#[trigger] rows[i]).fsid) && found[rows[i].fsid]
            == rows[i].title@
    &&& forall|i: int, j: int|
        0 <= i < j < rows.len() ==> (#[trigger] rows[i]).fsid != (#[trigger] rows[j]).fsid
}

/// Whether a row is about the fsid.
pub open spec fn has_row(rows: Seq<TitleRow>, fsid: u64) -> bool {
    exists|i: int| 0 <= i < rows.len() && (#[trigger] rows[i]).fsid == fsid
}

proof fn lemma_rearranged_rows(
    rows: Seq<TitleRow>,
    moved: Seq<TitleRow>,
    found: Map<u64, Seq<char>>,
)
    requires
        lists_titles(rows, found),
        moved.no_duplicates(),
        forall|row: TitleRow| #[trigger] moved.contains(row) <==> rows.contains(row),
    ensures
        lists_titles(moved, found),
        forall|fsid: u64| #[trigger] has_row(rows, fsid) ==> has_row(moved, fsid),
{
    assert forall|i: int| 0 <= i < moved.len() implies rows.contains(#[trigger] moved[i]) by {
        assert(moved.contains(moved[i]));
    }
    assert forall|i: int, j: int| 0 <= i < j < moved.len() implies (#[trigger] moved[i]).fsid != (
    #[trigger] moved[j]).fsid by {
        let a = choose|a: int| 0 <= a < rows.len() && rows[a] == moved[i];
        let b = choose|b: int| 0 <= b < rows.len() && rows[b] == moved[j];
        assert(rows[a] == moved[i] && rows[b] == moved[j]);
        assert(moved[i] != moved[j]);
    }
    assert forall|fsid: u64| #[trigger] has_row(rows, fsid) implies has_row(moved, fsid) by {
        let k = choose|k: int| 0 <= k < rows.len() && (#[trigger] rows[k]).fsid == fsid;
        assert(moved.contains(rows[k]));
    }
}

impl Titles {
    /// The rows of all titles, in no particular order.
    fn unordered_rows(&self) -> (rows: Vec<TitleRow>)
        ensures
            lists_titles(rows@, self@),
            rows@.len() == self@.dom().len(),
            forall|fsid: u64| #[trigger] self@.contains_key(fsid) ==> has_row(rows@, fsid),
    {
        let mut rows: Vec<TitleRow> = Vec::new();
        assert(self@.dom() =~= self.found@.dom());
        for fsid in iter: self.found.keys()
            invariant
                iter.seq().unref().to_set() == self.found@.dom(),
                forall|f: u64| #[trigger] self@.contains_key(f) ==> iter.seq().contains(&f),
                iter.seq().no_duplicates(),
                iter.seq().len() == self.found@.dom().len(),
                rows@.len() == iter.index(),
                forall|i: int|
                    #![trigger rows@[i]]
                    #![trigger iter.seq()[i]]
                    0 <= i < rows@.len() ==> {
                        &&& rows@[i].fsid == *iter.seq()[i]
                        &&& self@.contains_key(rows@[i].fsid)
                        &&& self@[rows@[i].fsid] == rows@[i].title@
                    },
        {
            proof {
                let fsids = iter.seq().unref();
                assert(fsids[iter.index() as int] == *fsid);
                assert(fsids.to_set().contains(*fsid));
            }
            let title = match self.found.get(fsid) {
                Some(title) => title.clone(),
                None => String::new(),
            };
            rows.push(TitleRow { fsid: *fsid, title });
        }
        rows
    }

    /// The rows of all titles, in order.
    pub fn rows(&self) -> (rows: Vec<TitleRow>)
        ensures
            lists_titles(rows@, self@),
            rows@.len() == self@.dom().len(),
            forall|fsid: u64| #[trigger] self@.contains_key(fsid) ==> has_row(rows@, fsid),
            in_order(rows@),
            forall|i: int|
                0 <= i < rows@.len() ==> self@.contains_key((#[trigger] rows@[i]).fsid)
                    && self@[rows@[i].fsid] == rows@[i].title@,
            forall|i: int, j: int|
                0 <= i < j < rows@.len() ==> (#[trigger] rows@[i]).fsid != (
                #[trigger] rows@[j]).fsid,
            forall|fsid: u64| #[trigger]
                self@.contains_key(fsid) ==> exists|i: int|
                    0 <= i < rows@.len() && (#[trigger] rows@[i]).fsid == fsid,
            forall|i: int, j: int|
                0 <= i < j < rows@.len() ==> {
                    let a = encode_utf8(uppercase((#[trigger] rows@[i]).title@));
                    let b = encode_utf8(uppercase((#[trigger] rows@[j]).title@));
                    bytes_lead(a, b) && (a == b ==> rows@[i].fsid < rows@[j].fsid)
                },
    {
        let unordered = self.unordered_rows();
        let ghost all = unordered@;
        let rows = stable_sort(unordered);
        proof {
            law_sort_keeps_elements(all, rows@);
            assert(all.no_duplicates());
            lemma_rearranged_rows(all, rows@, self@);
            assert forall|i: int, j: int| 0 <= i < j < rows@.len() implies {
                let a = encode_utf8(uppercase((#[trigger] rows@[i]).title@));
                let b = encode_utf8(uppercase((#[trigger] rows@[j]).title@));
                bytes_lead(a, b) && (a == b ==> rows@[i].fsid < rows@[j].fsid)
            } by {
                assert(rows@[i].leads(rows@[j]));
                lemma_bytes_lead_is_total(
                    encode_utf8(uppercase(rows@[i].title@)),
                    encode_utf8(uppercase(rows@[j].title@)),
                );
            }
        }
        rows
    }
}

/// The line of a listing for one recording.
pub fn title_line(row: &TitleRow) -> (line: String)
    ensures
        line@ == padded_right(row.title@, TITLE_COLUMN as nat, ' ') + "  fsid "@ + decimal(
            row.fsid as nat,
        ),
        line@ == padded_right(row.title@, 50, ' ') + "  fsid "@ + decimal(row.fsid as nat),
{
    let mut line = pad_right(&row.title, TITLE_COLUMN, ' ');
    line.append("  fsid ");
    line.append(&to_decimal(row.fsid));
    line
}

} // verus!
