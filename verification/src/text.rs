//! Text: numerals, padding, and the few string operations of std that the rest
//! of the crate builds on.

use vstd::prelude::*;
use vstd::utf8::{
    char_u32_cast, decode_utf8, decode_utf8_encode_utf8, encode_scalar, encode_utf8,
    encode_utf8_decode_utf8, encode_utf8_valid_utf8, is_ascii_chars, last_continuation_byte,
    leading_byte_width_1, leading_byte_width_2, leading_byte_width_3, leading_byte_width_4,
    second_last_continuation_byte, third_last_continuation_byte, valid_utf8,
};

verus! {

/// The character for a digit below sixteen, in lower case.
pub open spec fn digit(d: int) -> char {
    if d < 10 {
        (48 + d) as char
    } else {
        (87 + d) as char
    }
}

/// The decimal numeral of `n`, without leading zeros.
pub open spec fn decimal(n: nat) -> Seq<char>
    decreases n,
{
    if n < 10 {
        seq![digit(n as int)]
    } else {
        decimal(n / 10).push(digit((n % 10) as int))
    }
}

/// The hexadecimal numeral of `n`, in lower case and without leading zeros.
pub open spec fn hexadecimal(n: nat) -> Seq<char>
    decreases n,
{
    if n < 16 {
        seq![digit(n as int)]
    } else {
        hexadecimal(n / 16).push(digit((n % 16) as int))
    }
}

/// `count` copies of `c`; none when `count` is negative.
pub open spec fn repeated(c: char, count: int) -> Seq<char> {
    Seq::new(if count < 0 { 0 } else { count as nat }, |i: int| c)
}

/// `text` with `fill` in front, up to `width` characters.
pub open spec fn padded_left(text: Seq<char>, width: nat, fill: char) -> Seq<char> {
    repeated(fill, width - text.len()) + text
}

/// `text` followed by `fill`, up to `width` characters.
pub open spec fn padded_right(text: Seq<char>, width: nat, fill: char) -> Seq<char> {
    text + repeated(fill, width - text.len())
}

/// `String::push` appends one character.
pub assume_specification[ String::push ](text: &mut String, c: char)
    ensures
        final(text)@ == old(text)@.push(c),
;

/// A decimal numeral has one digit for a number below ten; otherwise its last
/// digit is the rest of the division by ten, and those before it are the numeral
/// of the quotient.
pub proof fn law_decimal_is_positional(n: nat)
    ensures
        n < 10 ==> decimal(n) == seq![(48 + n) as char],
        n >= 10 ==> decimal(n) == decimal(n / 10) + seq![(48 + n % 10) as char],
{
    if n >= 10 {
        assert(decimal(n) =~= decimal(n / 10) + seq![(48 + n % 10) as char]);
    }
}

/// A hexadecimal numeral has one digit for a number below sixteen; otherwise its
/// last digit is the rest of the division by sixteen, and those before it are the
/// numeral of the quotient. Digits from ten on are the letters from `a` on.
pub proof fn law_hexadecimal_is_positional(n: nat)
    ensures
        n < 10 ==> hexadecimal(n) == seq![(48 + n) as char],
        10 <= n < 16 ==> hexadecimal(n) == seq![(97 + n - 10) as char],
        n >= 16 ==> hexadecimal(n) == hexadecimal(n / 16) + hexadecimal(n % 16),
{
    if n >= 16 {
        assert(hexadecimal(n) =~= hexadecimal(n / 16) + hexadecimal(n % 16));
    }
}

fn digit_char(d: u8) -> (c: char)
    requires
        d < 16,
    ensures
        c == digit(d as int),
{
    if d < 10 {
        (48 + d) as char
    } else {
        (87 + d) as char
    }
}

/// Writes `n` in decimal.
pub fn to_decimal(n: u64) -> (text: String)
    ensures
        text@ == decimal(n as nat),
    decreases n,
{
    let mut text: String = if n < 10 {
        String::new()
    } else {
        to_decimal(n / 10)
    };
    text.push(digit_char((n % 10) as u8));
    proof {
        assert(n < 10 ==> text@ =~= decimal(n as nat));
    }
    text
}

/// Writes `n` in hexadecimal, in lower case.
pub fn to_hexadecimal(n: u64) -> (text: String)
    ensures
        text@ == hexadecimal(n as nat),
    decreases n,
{
    let mut text: String = if n < 16 {
        String::new()
    } else {
        to_hexadecimal(n / 16)
    };
    text.push(digit_char((n % 16) as u8));
    proof {
        assert(n < 16 ==> text@ =~= hexadecimal(n as nat));
    }
    text
}

/// `text` padded on the left with `fill` to at least `width` characters.
pub fn pad_left(text: &str, width: usize, fill: char) -> (padded: String)
    ensures
        padded@ == padded_left(text@, width as nat, fill),
        padded@.len() == if text@.len() < width {
            width as nat
        } else {
            text@.len()
        },
        padded@.skip(padded@.len() - text@.len()) == text@,
        forall|i: int| 0 <= i < padded@.len() - text@.len() ==> #[trigger] padded@[i] == fill,
{
    let count: usize = text.unicode_len();
    let mut padded = String::new();
    let mut have: usize = count;
    while have < width
        invariant
            count == text@.len(),
            count <= have,
            have <= width || have == count,
            padded@ == repeated(fill, have - count),
        decreases width - have,
    {
        padded.push(fill);
        have = have + 1;
        assert(padded@ =~= repeated(fill, have - count));
    }
    padded.append(text);
    assert(padded@ =~= padded_left(text@, width as nat, fill));
    assert(padded@.skip(padded@.len() - text@.len()) =~= text@);
    padded
}

/// `text` padded on the right with `fill` to at least `width` characters.
pub fn pad_right(text: &str, width: usize, fill: char) -> (padded: String)
    ensures
        padded@ == padded_right(text@, width as nat, fill),
        padded@.len() == if text@.len() < width {
            width as nat
        } else {
            text@.len()
        },
        padded@.take(text@.len() as int) == text@,
        forall|i: int| text@.len() <= i < padded@.len() ==> #[trigger] padded@[i] == fill,
{
    let count: usize = text.unicode_len();
    let mut padded = text.to_owned();
    let mut have: usize = count;
    while have < width
        invariant
            count == text@.len(),
            count <= have,
            have <= width || have == count,
            padded@ == text@ + repeated(fill, have - count),
        decreases width - have,
    {
        padded.push(fill);
        have = have + 1;
        assert(padded@ =~= text@ + repeated(fill, have - count));
    }
    assert(padded@.take(text@.len() as int) =~= text@);
    padded
}

/// `run` occurs in `whole`, without a gap, from `at` on.
pub open spec fn occurs_at<T>(whole: Seq<T>, run: Seq<T>, at: int) -> bool {
    &&& 0 <= at <= whole.len() - run.len()
    &&& forall|i: int| 0 <= i < run.len() ==> whole[at + i] == #[trigger] run[i]
}

/// `run` occurs in `whole`, without a gap.
pub open spec fn occurs_in<T>(whole: Seq<T>, run: Seq<T>) -> bool {
    exists|at: int| #[trigger] occurs_at(whole, run, at)
}

/// A run occurs where a part of the whole is that run.
pub proof fn law_occurring_is_being_a_part<T>(whole: Seq<T>, run: Seq<T>)
    ensures
        occurs_in(whole, run) <==> exists|at: int|
            0 <= at <= whole.len() - run.len() && #[trigger] whole.subrange(at, at + run.len())
                == run,
{
    if occurs_in(whole, run) {
        let at = choose|at: int| #[trigger] occurs_at(whole, run, at);
        assert forall|i: int| 0 <= i < run.len() implies whole.subrange(at, at + run.len())[i]
            == run[i] by {
            assert(whole[at + i] == run[i]);
        }
        assert(whole.subrange(at, at + run.len()) =~= run);
    }
    if exists|at: int|
        0 <= at <= whole.len() - run.len() && #[trigger] whole.subrange(at, at + run.len()) == run {
        let at = choose|at: int|
            0 <= at <= whole.len() - run.len() && #[trigger] whole.subrange(at, at + run.len())
                == run;
        assert forall|i: int| 0 <= i < run.len() implies whole[at + i] == #[trigger] run[i] by {
            assert(whole.subrange(at, at + run.len())[i] == whole[at + i]);
        }
        assert(occurs_at(whole, run, at));
    }
}

/// Whether `part` occurs in `text`.
pub fn contains_text(text: &str, part: &str) -> (found: bool)
    ensures
        found == occurs_in(text@, part@),
        found == exists|at: int|
            0 <= at <= text@.len() - part@.len() && #[trigger] text@.subrange(
                at,
                at + part@.len(),
            ) == part@,
{
    proof {
        law_occurring_is_being_a_part(text@, part@);
    }
    let len: usize = text.unicode_len();
    let part_len: usize = part.unicode_len();
    if part_len > len {
        return false;
    }
    let last: usize = len - part_len;
    let mut at: usize = 0;
    loop
        invariant
            at <= last,
            last == len - part_len,
            len == text@.len(),
            part_len == part@.len(),
            forall|k: int| 0 <= k < at ==> !#[trigger] occurs_at(text@, part@, k),
        decreases last - at,
    {
        let mut same: usize = 0;
        while same < part_len && text.get_char(at + same) == part.get_char(same)
            invariant
                at <= last,
                last == len - part_len,
                len == text@.len(),
                part_len == part@.len(),
                same <= part_len,
                forall|i: int| 0 <= i < same ==> text@[at + i] == #[trigger] part@[i],
            decreases part_len - same,
        {
            same += 1;
        }
        if same == part_len {
            assert(occurs_at(text@, part@, at as int));
            proof {
                law_occurring_is_being_a_part(text@, part@);
            }
            return true;
        }
        assert(text@[at + same] != part@[same as int]);
        if at == last {
            proof {
                law_occurring_is_being_a_part(text@, part@);
            }
            return false;
        }
        at += 1;
    }
}

/// Whether `run` occurs in `data`.
pub fn contains_bytes(data: &[u8], run: &[u8]) -> (found: bool)
    ensures
        found == occurs_in(data@, run@),
        found == exists|at: int|
            0 <= at <= data@.len() - run@.len() && #[trigger] data@.subrange(at, at + run@.len())
                == run@,
{
    proof {
        law_occurring_is_being_a_part(data@, run@);
    }
    let len: usize = data.len();
    let run_len: usize = run.len();
    if run_len > len {
        return false;
    }
    let last: usize = len - run_len;
    let mut at: usize = 0;
    loop
        invariant
            at <= last,
            last == len - run_len,
            len == data@.len(),
            run_len == run@.len(),
            forall|k: int| 0 <= k < at ==> !#[trigger] occurs_at(data@, run@, k),
        decreases last - at,
    {
        let mut same: usize = 0;
        while same < run_len && data[at + same] == run[same]
            invariant
                at <= last,
                last == len - run_len,
                len == data@.len(),
                run_len == run@.len(),
                same <= run_len,
                forall|i: int| 0 <= i < same ==> data@[at + i] == #[trigger] run@[i],
            decreases run_len - same,
        {
            same += 1;
        }
        if same == run_len {
            assert(occurs_at(data@, run@, at as int));
            proof {
                law_occurring_is_being_a_part(data@, run@);
            }
            return true;
        }
        assert(data@[at + same] != run@[same as int]);
        if at == last {
            proof {
                law_occurring_is_being_a_part(data@, run@);
            }
            return false;
        }
        at += 1;
    }
}

/// What `String::from_utf8_lossy` makes of bytes that are not valid UTF-8.
pub uninterp spec fn repaired_text(bytes: Seq<u8>) -> Seq<char>;

/// The text that `bytes` stand for: what they encode when they are valid UTF-8,
/// and a repaired reading of them otherwise.
pub open spec fn text_of(bytes: Seq<u8>) -> Seq<char> {
    if valid_utf8(bytes) {
        decode_utf8(bytes)
    } else {
        repaired_text(bytes)
    }
}

/// Valid UTF-8 stands for all that it encodes; other bytes stand for what
/// `String::from_utf8_lossy` makes of them.
pub proof fn law_bytes_stand_for_their_text(bytes: Seq<u8>)
    ensures
        valid_utf8(bytes) ==> text_of(bytes) == decode_utf8(bytes),
        !valid_utf8(bytes) ==> text_of(bytes) == repaired_text(bytes),
        forall|text: Seq<char>| #[trigger] encode_utf8(text) == bytes ==> text_of(bytes) == text,
{
    assert forall|text: Seq<char>| #[trigger] encode_utf8(text) == bytes implies text_of(bytes)
        == text by {
        encode_utf8_valid_utf8(text);
        encode_utf8_decode_utf8(text);
    }
}

/// `String::from_utf8_lossy`. Valid UTF-8 is decoded as it stands. In anything
/// else the invalid sequences are replaced by U+FFFD, so that at least one is
/// there, and no other character is added: without a NUL byte there is no NUL.
/// How many replacements there are, and where, is left to the name
/// `repaired_text`.
#[verifier::external_body]
pub(crate) fn utf8_lossy(bytes: &[u8]) -> (text: String)
    ensures
        valid_utf8(bytes@) ==> text@ == decode_utf8(bytes@),
        !valid_utf8(bytes@) ==> text@ == repaired_text(bytes@),
        !valid_utf8(bytes@) ==> text@.contains('\u{FFFD}'),
        !valid_utf8(bytes@) && !bytes@.contains(0) ==> !text@.contains('\0'),
{
    String::from_utf8_lossy(bytes).into_owned()
}

proof fn lemma_scalar_bytes(c: char)
    ensures
        (c as u32) < 128 ==> encode_scalar(c as u32).len() == 1 && encode_scalar(c as u32)[0]
            == c as u32,
        (c as u32) >= 128 ==> forall|k: int|
            0 <= k < encode_scalar(c as u32).len() ==> #[trigger] encode_scalar(c as u32)[k] >= 128,
{
    let v = c as u32;
    assert(v < 128 ==> leading_byte_width_1(v) == v) by (bit_vector);
    assert(leading_byte_width_2(v) >= 128) by (bit_vector);
    assert(leading_byte_width_3(v) >= 128) by (bit_vector);
    assert(leading_byte_width_4(v) >= 128) by (bit_vector);
    assert(last_continuation_byte(v) >= 128) by (bit_vector);
    assert(second_last_continuation_byte(v) >= 128) by (bit_vector);
    assert(third_last_continuation_byte(v) >= 128) by (bit_vector);
}

/// In UTF-8 an ASCII byte stands for the character of that number and for nothing
/// else.
pub proof fn law_ascii_bytes_are_ascii_characters(text: Seq<char>, byte: u8)
    requires
        byte < 128,
    ensures
        encode_utf8(text).contains(byte) <==> text.contains(byte as char),
    decreases text.len(),
{
    if text.len() > 0 {
        let rest = text.drop_first();
        let head = encode_scalar(text[0] as u32);
        let bytes = encode_utf8(text);
        law_ascii_bytes_are_ascii_characters(rest, byte);
        lemma_scalar_bytes(text[0]);
        assert(bytes =~= head + encode_utf8(rest));
        assert(text =~= seq![text[0]] + rest);
        if bytes.contains(byte) {
            let k = choose|k: int| 0 <= k < bytes.len() && bytes[k] == byte;
            if k < head.len() {
                assert(head[k] == byte);
                assert(text[0] as u32 == byte);
                char_u32_cast(text[0], byte as u32);
            } else {
                assert(encode_utf8(rest)[k - head.len()] == byte);
                let j = choose|j: int| 0 <= j < rest.len() && rest[j] == byte as char;
                assert(text[j + 1] == byte as char);
            }
        }
        if text.contains(byte as char) {
            let j = choose|j: int| 0 <= j < text.len() && text[j] == byte as char;
            if j == 0 {
                assert(head[0] == byte);
                assert(bytes[0] == byte);
            } else {
                assert(rest[j - 1] == byte as char);
                let k = choose|k: int|
                    0 <= k < encode_utf8(rest).len() && encode_utf8(rest)[k] == byte;
                assert(bytes[head.len() + k] == byte);
            }
        }
    }
}

proof fn lemma_nul_is_encoded(text: Seq<char>, i: int)
    requires
        0 <= i < text.len(),
        text[i] == '\0',
    ensures
        encode_utf8(text).contains(0),
    decreases text.len(),
{
    let head = encode_scalar(text[0] as u32);
    let rest = encode_utf8(text.drop_first());
    if i == 0 {
        assert(leading_byte_width_1(0) == 0) by (bit_vector);
        assert(encode_utf8(text)[0] == head[0]);
    } else {
        lemma_nul_is_encoded(text.drop_first(), i - 1);
        let k = choose|k: int| 0 <= k < rest.len() && rest[k] == 0;
        assert(encode_utf8(text)[head.len() + k] == 0);
    }
}

/// Valid UTF-8 without a NUL byte stands for text without a NUL, and for none
/// only where there are no bytes.
pub proof fn law_decoded_text_is_plain(bytes: Seq<u8>)
    requires
        valid_utf8(bytes),
        !bytes.contains(0),
    ensures
        !decode_utf8(bytes).contains('\0'),
        bytes.len() > 0 ==> decode_utf8(bytes).len() > 0,
{
    let text = decode_utf8(bytes);
    decode_utf8_encode_utf8(bytes);
    if text.contains('\0') {
        let i = choose|i: int| 0 <= i < text.len() && text[i] == '\0';
        lemma_nul_is_encoded(text, i);
    }
}

/// The characters of the Unicode property White_Space.
pub open spec fn is_white_space(c: char) -> bool {
    ||| '\u{9}' <= c <= '\u{d}'
    ||| c == ' '
    ||| c == '\u{85}'
    ||| c == '\u{a0}'
    ||| c == '\u{1680}'
    ||| '\u{2000}' <= c <= '\u{200a}'
    ||| '\u{2028}' <= c <= '\u{2029}'
    ||| c == '\u{202f}'
    ||| c == '\u{205f}'
    ||| c == '\u{3000}'
}

/// `text` without the white space in front.
pub open spec fn trimmed_start(text: Seq<char>) -> Seq<char>
    decreases text.len(),
{
    if text.len() > 0 && is_white_space(text[0]) {
        trimmed_start(text.drop_first())
    } else {
        text
    }
}

/// `text` without the white space at its end.
pub open spec fn trimmed_end(text: Seq<char>) -> Seq<char>
    decreases text.len(),
{
    if text.len() > 0 && is_white_space(text.last()) {
        trimmed_end(text.drop_last())
    } else {
        text
    }
}

/// `text` without the white space at either end.
pub open spec fn trimmed(text: Seq<char>) -> Seq<char> {
    trimmed_end(trimmed_start(text))
}

/// The white space of Unicode: what separates lines, paragraphs and words.
pub proof fn law_white_space_is_that_of_unicode(c: char)
    ensures
        is_white_space(c) <==> ({
            let v = c as u32;
            ||| 0x9 <= v <= 0xd
            ||| v == 0x20 || v == 0x85 || v == 0xa0 || v == 0x1680
            ||| 0x2000 <= v <= 0x200a
            ||| v == 0x2028 || v == 0x2029 || v == 0x202f || v == 0x205f || v == 0x3000
        }),
{
}

proof fn lemma_trimmed_start(text: Seq<char>) -> (from: int)
    ensures
        0 <= from <= text.len(),
        trimmed_start(text) == text.skip(from),
        forall|k: int| 0 <= k < from ==> is_white_space(#[trigger] text[k]),
        from < text.len() ==> !is_white_space(text[from]),
    decreases text.len(),
{
    if text.len() > 0 && is_white_space(text[0]) {
        let rest = text.drop_first();
        let from = lemma_trimmed_start(rest) + 1;
        assert(rest.skip(from - 1) =~= text.skip(from));
        assert forall|k: int| 0 <= k < from implies is_white_space(#[trigger] text[k]) by {
            if k > 0 {
                assert(rest[k - 1] == text[k]);
            }
        }
        from
    } else {
        assert(text.skip(0) =~= text);
        0
    }
}

proof fn lemma_trimmed_end(text: Seq<char>) -> (to: int)
    ensures
        0 <= to <= text.len(),
        trimmed_end(text) == text.take(to),
        forall|k: int| to <= k < text.len() ==> is_white_space(#[trigger] text[k]),
        to > 0 ==> !is_white_space(text[to - 1]),
    decreases text.len(),
{
    if text.len() > 0 && is_white_space(text.last()) {
        let rest = text.drop_last();
        let to = lemma_trimmed_end(rest);
        assert(rest.take(to) =~= text.take(to));
        assert forall|k: int| to <= k < text.len() implies is_white_space(#[trigger] text[k]) by {
            if k < rest.len() {
                assert(rest[k] == text[k]);
            }
        }
        to
    } else {
        assert(text.take(text.len() as int) =~= text);
        text.len() as int
    }
}

/// What trimming leaves is the part of the text from the first to the last
/// character that is not white space.
pub proof fn law_trimming_removes_outer_white_space(text: Seq<char>)
    ensures
        exists|from: int, to: int|
            {
                &&& 0 <= from <= to <= text.len()
                &&& trimmed(text) == #[trigger] text.subrange(from, to)
                &&& forall|k: int| 0 <= k < from ==> is_white_space(#[trigger] text[k])
                &&& forall|k: int| to <= k < text.len() ==> is_white_space(#[trigger] text[k])
                &&& from < to ==> !is_white_space(text[from]) && !is_white_space(text[to - 1])
            },
        text.len() > 0 && !is_white_space(text[0]) && !is_white_space(text.last()) ==> trimmed(text)
            == text,
{
    let from = lemma_trimmed_start(text);
    let rest = text.skip(from);
    let n = lemma_trimmed_end(rest);
    let to = from + n;
    assert(rest.take(n) =~= text.subrange(from, to));
    assert forall|k: int| to <= k < text.len() implies is_white_space(#[trigger] text[k]) by {
        assert(rest[k - from] == text[k]);
    }
    if text.len() > 0 && !is_white_space(text[0]) && !is_white_space(text.last()) {
        assert(from == 0);
        assert(to == text.len()) by {
            if to < text.len() {
                assert(is_white_space(text[text.len() - 1]));
            }
        }
        assert(text.subrange(from, to) =~= text);
    }
}

fn check_white_space(c: char) -> (r: bool)
    ensures
        r == is_white_space(c),
{
    ('\u{9}' <= c && c <= '\u{d}') || c == ' ' || c == '\u{85}' || c == '\u{a0}' || c == '\u{1680}'
        || ('\u{2000}' <= c && c <= '\u{200a}') || c == '\u{2028}' || c == '\u{2029}' || c
        == '\u{202f}' || c == '\u{205f}' || c == '\u{3000}'
}

/// Removes the white space at either end.
pub fn trim(text: &str) -> (r: String)
    ensures
        r@ == trimmed(text@),
        exists|from: int, to: int|
            {
                &&& 0 <= from <= to <= text@.len()
                &&& r@ == #[trigger] text@.subrange(from, to)
                &&& forall|k: int| 0 <= k < from ==> is_white_space(#[trigger] text@[k])
                &&& forall|k: int| to <= k < text@.len() ==> is_white_space(#[trigger] text@[k])
                &&& from < to ==> !is_white_space(text@[from]) && !is_white_space(text@[to - 1])
            },
{
    proof {
        law_trimming_removes_outer_white_space(text@);
    }
    let len: usize = text.unicode_len();
    let mut start: usize = 0;
    assert(text@.skip(0) =~= text@);
    while start < len && check_white_space(text.get_char(start))
        invariant
            start <= len,
            len == text@.len(),
            trimmed_start(text@.skip(start as int)) == trimmed_start(text@),
        decreases len - start,
    {
        assert(text@.skip(start as int)[0] == text@[start as int]);
        assert(text@.skip(start as int).drop_first() =~= text@.skip(start + 1));
        start += 1;
    }
    let ghost rest = text@.skip(start as int);
    assert(trimmed_start(rest) == rest) by {
        assert(rest.len() > 0 ==> rest[0] == text@[start as int]);
    }
    let mut end: usize = len;
    assert(rest.take(end - start) =~= rest);
    while start < end && check_white_space(text.get_char(end - 1))
        invariant
            start <= end <= len,
            len == text@.len(),
            rest == text@.skip(start as int),
            trimmed_end(rest.take(end - start)) == trimmed_end(rest),
        decreases end - start,
    {
        assert(rest.take(end - start).last() == text@[end - 1]);
        assert(rest.take(end - start).drop_last() =~= rest.take(end - 1 - start));
        end -= 1;
    }
    assert(start < end ==> rest.take(end - start).last() == text@[end - 1]);
    assert(rest.take(end - start) =~= text@.subrange(start as int, end as int));
    text.substring_char(start, end).to_owned()
}

/// What `str::to_uppercase` makes of text that is not all ASCII.
pub uninterp spec fn unicode_uppercase(text: Seq<char>) -> Seq<char>;

/// An ASCII letter in upper case; any other character as it is.
pub open spec fn ascii_upper(c: char) -> char {
    if 'a' <= c <= 'z' {
        (c as int - 32) as char
    } else {
        c
    }
}

/// `text` in upper case.
pub open spec fn uppercase(text: Seq<char>) -> Seq<char> {
    if is_ascii_chars(text) {
        text.map_values(|c: char| ascii_upper(c))
    } else {
        unicode_uppercase(text)
    }
}

/// In upper case ASCII text keeps its length and everything but its small letters,
/// each of which gives way to its capital; other text is what `str::to_uppercase`
/// makes of it.
pub proof fn law_upper_case_is_that_of_every_character(text: Seq<char>)
    ensures
        is_ascii_chars(text) ==> uppercase(text).len() == text.len(),
        is_ascii_chars(text) ==> forall|i: int|
            0 <= i < text.len() ==> #[trigger] uppercase(text)[i] == (if 97 <= text[i] as u32
                <= 122 {
                (text[i] as u32 - 32) as char
            } else {
                text[i]
            }),
        !is_ascii_chars(text) ==> uppercase(text) == unicode_uppercase(text),
{
}

/// `str::to_uppercase`. On ASCII text it maps each letter; beyond ASCII its
/// result, the Unicode upper case, goes by the name `unicode_uppercase`.
#[verifier::external_body]
pub(crate) fn to_uppercase(text: &str) -> (r: String)
    ensures
        is_ascii_chars(text@) ==> r@ == text@.map_values(|c: char| ascii_upper(c)),
        !is_ascii_chars(text@) ==> r@ == unicode_uppercase(text@),
{
    text.to_uppercase()
}

/// What `str::to_lowercase` makes of text that is not all ASCII.
pub uninterp spec fn unicode_lowercase(text: Seq<char>) -> Seq<char>;

/// An ASCII letter in lower case; any other character as it is.
pub open spec fn ascii_lower(c: char) -> char {
    if 'A' <= c <= 'Z' {
        (c as int + 32) as char
    } else {
        c
    }
}

/// `text` in lower case.
pub open spec fn lowercase(text: Seq<char>) -> Seq<char> {
    if is_ascii_chars(text) {
        text.map_values(|c: char| ascii_lower(c))
    } else {
        unicode_lowercase(text)
    }
}

/// In lower case ASCII text keeps its length and everything but its capitals, each
/// of which gives way to its small letter; other text is what `str::to_lowercase`
/// makes of it.
pub proof fn law_lower_case_is_that_of_every_character(text: Seq<char>)
    ensures
        is_ascii_chars(text) ==> lowercase(text).len() == text.len(),
        is_ascii_chars(text) ==> forall|i: int|
            0 <= i < text.len() ==> #[trigger] lowercase(text)[i] == if 65 <= text[i] as u32 <= 90 {
                (text[i] as u32 + 32) as char
            } else {
                text[i]
            },
        !is_ascii_chars(text) ==> lowercase(text) == unicode_lowercase(text),
{
}

/// `str::to_lowercase`. On ASCII text it maps each letter; beyond ASCII its
/// result, the Unicode lower case, goes by the name `unicode_lowercase`.
#[verifier::external_body]
pub(crate) fn to_lowercase(text: &str) -> (r: String)
    ensures
        is_ascii_chars(text@) ==> r@ == text@.map_values(|c: char| ascii_lower(c)),
        !is_ascii_chars(text@) ==> r@ == unicode_lowercase(text@),
{
    text.to_lowercase()
}

/// What `{:?}` writes for text that holds a character to escape.
pub uninterp spec fn escaped_text(text: Seq<char>) -> Seq<char>;

/// Printable ASCII without the quote and the backslash: text in which `{:?}`
/// escapes nothing.
pub open spec fn needs_no_escape(text: Seq<char>) -> bool {
    forall|i: int|
        0 <= i < text.len() ==> ' ' <= #[trigger] text[i] <= '~' && text[i] != '"' && text[i]
            != '\\'
}

/// `text` in quotes, as `{:?}` writes it.
pub open spec fn quoted_text(text: Seq<char>) -> Seq<char> {
    if needs_no_escape(text) {
        seq!['"'] + text + seq!['"']
    } else {
        escaped_text(text)
    }
}

/// The `Debug` form of a string, through `format!`: the text in double quotes.
/// Where nothing needs escaping it stands between them as it is; otherwise the
/// result goes by the name `escaped_text`.
#[verifier::external_body]
pub(crate) fn quoted(text: &str) -> (r: String)
    ensures
        needs_no_escape(text@) ==> r@ == seq!['"'] + text@ + seq!['"'],
        !needs_no_escape(text@) ==> r@ == escaped_text(text@),
{
    format!("{:?}", text)
}

} // verus!
