//! The object format written down from the other side: the bytes that stand for
//! given subobjects, and what parsing gives back of them.

use vstd::prelude::*;
use vstd::utf8::{
    char_is_scalar, decode_utf8, encode_scalar, encode_utf8, encode_utf8_decode_utf8,
    encode_utf8_valid_utf8, last_continuation_byte, leading_byte_width_1, leading_byte_width_2,
    leading_byte_width_3, leading_byte_width_4, second_last_continuation_byte,
    third_last_continuation_byte, valid_utf8,
};

use crate::object::{
    aligned, at_most, attributes_in, decoded_value, nonempty, nul_strings, object_body,
    parsed_object, split_at_nul, subobject_of, subobjects_in, u16_at, u32_at, word_pairs, words,
    AttrValue, Attribute, Subobject,
};
use crate::text::{repaired_text, text_of};

verus! {

/// An attribute as it lies on the disk: its value is raw bytes.
pub struct RawAttribute {
    pub eltype: u8,
    pub id: u8,
    pub data: Seq<u8>,
}

/// A subobject as it lies on the disk, with the header fields that carry no
/// metadata.
pub struct RawSubobject {
    pub len1: u16,
    pub obj_type: u16,
    pub flags: u16,
    pub fill: u32,
    pub id: u32,
    pub attributes: Seq<RawAttribute>,
}

/// `n` as a big-endian 16-bit integer.
pub open spec fn be16(n: int) -> Seq<u8> {
    seq![(n / 256) as u8, (n % 256) as u8]
}

/// `n` as a big-endian 32-bit integer.
pub open spec fn be32(n: int) -> Seq<u8> {
    be16(n / 65536) + be16(n % 65536)
}

impl RawAttribute {
    /// The length that the header gives.
    pub open spec fn len(self) -> int {
        4 + self.data.len() as int
    }

    /// Whether the length fits its header field.
    pub open spec fn fits(self) -> bool {
        self.len() <= u16::MAX
    }

    /// The header, the value bytes, and zeros up to a multiple of four.
    pub open spec fn bytes(self) -> Seq<u8> {
        seq![self.eltype, self.id] + be16(self.len()) + self.data + Seq::new(
            (aligned(self.len()) - self.len()) as nat,
            |i: int| 0u8,
        )
    }

    /// The attribute that this stands for.
    pub open spec fn meaning(self) -> Attribute {
        Attribute {
            id: self.id,
            eltype: self.eltype,
            value: decoded_value(self.eltype, self.data),
        }
    }
}

/// The attributes one after the other.
pub open spec fn attribute_bytes(attributes: Seq<RawAttribute>) -> Seq<u8>
    decreases attributes.len(),
{
    if attributes.len() == 0 {
        Seq::empty()
    } else {
        attributes[0].bytes() + attribute_bytes(attributes.drop_first())
    }
}

impl RawSubobject {
    /// The length that the header gives.
    pub open spec fn len(self) -> int {
        16 + attribute_bytes(self.attributes).len() as int
    }

    /// Whether all lengths fit their header fields.
    pub open spec fn fits(self) -> bool {
        &&& self.len() <= u16::MAX
        &&& forall|i: int| 0 <= i < self.attributes.len() ==> (#[trigger] self.attributes[i]).fits()
    }

    /// The header and the attributes.
    pub open spec fn bytes(self) -> Seq<u8> {
        be16(self.len()) + be16(self.len1 as int) + be16(self.obj_type as int) + be16(
            self.flags as int,
        ) + be32(self.fill as int) + be32(self.id as int) + attribute_bytes(self.attributes)
    }

    /// The subobject that this stands for.
    pub open spec fn meaning(self) -> Subobject {
        Subobject {
            obj_type: self.obj_type,
            flags: self.flags,
            id: self.id,
            attributes: self.attributes.map_values(|a: RawAttribute| a.meaning()),
        }
    }
}

/// The subobjects one after the other.
pub open spec fn subobject_bytes(subobjects: Seq<RawSubobject>) -> Seq<u8>
    decreases subobjects.len(),
{
    if subobjects.len() == 0 {
        Seq::empty()
    } else {
        subobjects[0].bytes() + subobject_bytes(subobjects.drop_first())
    }
}

/// An object: its header, whose size counts the header too, and its subobjects.
pub open spec fn object_bytes(fill1: u32, subobjects: Seq<RawSubobject>) -> Seq<u8> {
    be32(fill1 as int) + be32(8 + subobject_bytes(subobjects).len() as int) + subobject_bytes(
        subobjects,
    )
}

/// The subobjects that these stand for.
pub open spec fn meanings(subobjects: Seq<RawSubobject>) -> Seq<Subobject> {
    subobjects.map_values(|s: RawSubobject| s.meaning())
}

proof fn lemma_attribute_read_back(a: RawAttribute, rest: Seq<u8>)
    requires
        a.fits(),
    ensures
        attributes_in(a.bytes() + rest) == seq![a.meaning()] + attributes_in(rest),
{
    let buf = a.bytes() + rest;
    let len = a.len();
    assert(a.bytes().len() == aligned(len));
    assert(u16_at(buf, 2) == len) by {
        assert(buf[2] == (len / 256) as u8);
        assert(buf[3] == (len % 256) as u8);
    }
    assert(buf.subrange(4, at_most(len, buf.len() as int)) =~= a.data);
    assert(buf.skip(at_most(aligned(len), buf.len() as int)) =~= rest);
}

proof fn lemma_attributes_read_back(attributes: Seq<RawAttribute>)
    requires
        forall|i: int| 0 <= i < attributes.len() ==> (#[trigger] attributes[i]).fits(),
    ensures
        attributes_in(attribute_bytes(attributes)) == attributes.map_values(
            |a: RawAttribute| a.meaning(),
        ),
    decreases attributes.len(),
{
    let meant = attributes.map_values(|a: RawAttribute| a.meaning());
    if attributes.len() == 0 {
        assert(meant =~= Seq::<Attribute>::empty());
    } else {
        let tail = attributes.drop_first();
        lemma_attributes_read_back(tail);
        lemma_attribute_read_back(attributes[0], attribute_bytes(tail));
        assert(meant =~= seq![attributes[0].meaning()] + tail.map_values(
            |a: RawAttribute| a.meaning(),
        ));
    }
}

proof fn lemma_subobject_read_back(s: RawSubobject)
    requires
        s.fits(),
    ensures
        subobject_of(s.bytes()) == s.meaning(),
        s.bytes().len() == s.len(),
        u16_at(s.bytes(), 0) == s.len(),
{
    let buf = s.bytes();
    assert(buf.skip(16) =~= attribute_bytes(s.attributes));
    lemma_attributes_read_back(s.attributes);
    assert(buf[0] == (s.len() / 256) as u8 && buf[1] == (s.len() % 256) as u8);
    assert(buf[4] == (s.obj_type / 256) as u8 && buf[5] == (s.obj_type % 256) as u8);
    assert(buf[6] == (s.flags / 256) as u8 && buf[7] == (s.flags % 256) as u8);
    let high = s.id as int / 65536;
    let low = s.id as int % 65536;
    assert(buf[12] == (high / 256) as u8 && buf[13] == (high % 256) as u8);
    assert(buf[14] == (low / 256) as u8 && buf[15] == (low % 256) as u8);
}

proof fn lemma_subobject_in_front(head: Seq<u8>, body: Seq<u8>, rest: Seq<u8>)
    requires
        16 <= head.len(),
        u16_at(head, 0) == head.len(),
    ensures
        subobjects_in((head + body) + rest) == seq![subobject_of(head)] + subobjects_in(
            body + rest,
        ),
{
    let buf = (head + body) + rest;
    assert(u16_at(buf, 0) == u16_at(head, 0));
    assert(buf.take(head.len() as int) =~= head);
    assert(buf.skip(head.len() as int) =~= body + rest);
}

/// Whatever follows well-formed subobjects, good or bad, those subobjects are
/// read, and what follows them is read as it would be on its own.
pub proof fn law_good_subobjects_survive(subobjects: Seq<RawSubobject>, rest: Seq<u8>)
    requires
        forall|i: int| 0 <= i < subobjects.len() ==> (#[trigger] subobjects[i]).fits(),
    ensures
        subobjects_in(subobject_bytes(subobjects) + rest) == meanings(subobjects) + subobjects_in(
            rest,
        ),
    decreases subobjects.len(),
{
    if subobjects.len() == 0 {
        assert(subobject_bytes(subobjects) + rest =~= rest);
        assert(meanings(subobjects) + subobjects_in(rest) =~= subobjects_in(rest));
    } else {
        let first = subobjects[0];
        let tail = subobjects.drop_first();
        law_good_subobjects_survive(tail, rest);
        lemma_subobject_read_back(first);
        lemma_subobject_in_front(first.bytes(), subobject_bytes(tail), rest);
        assert(meanings(subobjects) =~= seq![first.meaning()] + meanings(tail));
        assert(meanings(subobjects) + subobjects_in(rest) =~= seq![first.meaning()] + (meanings(
            tail,
        ) + subobjects_in(rest)));
    }
}

/// Parsing reads back every object that can be written down, whatever bytes
/// follow it in the buffer.
pub proof fn law_parse_reads_back(fill1: u32, subobjects: Seq<RawSubobject>, trailing: Seq<u8>)
    requires
        8 + subobject_bytes(subobjects).len() <= u32::MAX,
        forall|i: int| 0 <= i < subobjects.len() ==> (#[trigger] subobjects[i]).fits(),
    ensures
        parsed_object(object_bytes(fill1, subobjects) + trailing) == meanings(subobjects),
{
    let body = subobject_bytes(subobjects);
    let buf = object_bytes(fill1, subobjects) + trailing;
    let size = 8 + body.len() as int;
    let high = size / 65536;
    let low = size % 65536;
    assert(buf[4] == (high / 256) as u8 && buf[5] == (high % 256) as u8);
    assert(buf[6] == (low / 256) as u8 && buf[7] == (low % 256) as u8);
    assert(u32_at(buf, 4) == size);
    assert(object_body(buf) =~= body + Seq::<u8>::empty());
    law_good_subobjects_survive(subobjects, Seq::empty());
    assert(meanings(subobjects) + Seq::<Subobject>::empty() =~= meanings(subobjects));
}

proof fn lemma_truncated_subobjects(buf: Seq<u8>, n: int)
    requires
        0 <= n <= buf.len(),
    ensures
        subobjects_in(buf.take(n)).is_prefix_of(subobjects_in(buf)),
    decreases buf.len(),
{
    let cut = buf.take(n);
    if cut.len() >= 16 && 16 <= u16_at(buf, 0) <= cut.len() {
        let len = u16_at(buf, 0) as int;
        assert(u16_at(cut, 0) == u16_at(buf, 0));
        assert(cut.take(len) =~= buf.take(len));
        assert(cut.skip(len) =~= buf.skip(len).take(n - len));
        lemma_truncated_subobjects(buf.skip(len), n - len);
    } else {
        assert(cut.len() >= 16 ==> u16_at(cut, 0) == u16_at(buf, 0));
        assert(subobjects_in(cut) =~= Seq::<Subobject>::empty());
    }
}

/// A truncated buffer yields the leading subobjects of the whole: nothing is
/// invented, reordered or changed.
pub proof fn law_truncation_keeps_a_prefix(buf: Seq<u8>, n: int)
    requires
        0 <= n <= buf.len(),
    ensures
        parsed_object(buf.take(n)).is_prefix_of(parsed_object(buf)),
{
    let cut = buf.take(n);
    if cut.len() < 8 {
        assert(parsed_object(cut) =~= Seq::<Subobject>::empty());
    } else {
        assert(u32_at(cut, 4) == u32_at(buf, 4));
        let body = object_body(buf);
        let kept = at_most(body.len() as int, n - 8);
        assert(object_body(cut) =~= body.take(kept));
        lemma_truncated_subobjects(body, kept);
    }
}

/// Bytes beyond the size that the header gives play no part.
pub proof fn law_bytes_beyond_size_are_ignored(buf: Seq<u8>, extra: Seq<u8>)
    requires
        8 <= buf.len(),
        u32_at(buf, 4) <= buf.len(),
    ensures
        parsed_object(buf + extra) == parsed_object(buf),
{
    assert(u32_at(buf + extra, 4) == u32_at(buf, 4));
    assert(object_body(buf + extra) =~= object_body(buf));
}

proof fn lemma_subobjects_take_room(buf: Seq<u8>)
    ensures
        16 * subobjects_in(buf).len() <= buf.len(),
    decreases buf.len(),
{
    if buf.len() >= 16 && 16 <= u16_at(buf, 0) <= buf.len() {
        lemma_subobjects_take_room(buf.skip(u16_at(buf, 0) as int));
    }
}

/// Every subobject takes at least its own header of the buffer.
pub proof fn law_subobjects_take_room(buf: Seq<u8>)
    ensures
        parsed_object(buf).len() > 0 ==> 8 + 16 * parsed_object(buf).len() <= buf.len(),
{
    lemma_subobjects_take_room(object_body(buf));
}

/// Integers one after the other, as an int or file attribute holds them.
pub open spec fn word_bytes(values: Seq<u32>) -> Seq<u8>
    decreases values.len(),
{
    if values.len() == 0 {
        Seq::empty()
    } else {
        word_bytes(values.drop_last()) + be32(values.last() as int)
    }
}

proof fn lemma_be32_read_back(value: u32, before: Seq<u8>)
    ensures
        u32_at(before + be32(value as int), before.len() as int) == value,
{
    let buf = before + be32(value as int);
    let n = before.len() as int;
    let high = value as int / 65536;
    let low = value as int % 65536;
    assert(buf[n] == (high / 256) as u8 && buf[n + 1] == (high % 256) as u8);
    assert(buf[n + 2] == (low / 256) as u8 && buf[n + 3] == (low % 256) as u8);
}

/// The integers of an int or file attribute are read back as they were written.
pub proof fn law_words_read_back(values: Seq<u32>)
    ensures
        words(word_bytes(values)) == values,
        word_bytes(values).len() == 4 * values.len(),
    decreases values.len(),
{
    let buf = word_bytes(values);
    if values.len() > 0 {
        let earlier = values.drop_last();
        let before = word_bytes(earlier);
        law_words_read_back(earlier);
        lemma_be32_read_back(values.last(), before);
        assert forall|k: int| 0 <= k < values.len() implies #[trigger] words(buf)[k]
            == values[k] by {
            if k < earlier.len() {
                assert(u32_at(buf, 4 * k) == u32_at(before, 4 * k));
                assert(words(before)[k] == earlier[k]);
            }
        }
    }
    assert(words(buf) =~= values);
}

/// References one after the other, as an object attribute holds them.
pub open spec fn reference_bytes(refs: Seq<(u32, u32)>) -> Seq<u8>
    decreases refs.len(),
{
    if refs.len() == 0 {
        Seq::empty()
    } else {
        reference_bytes(refs.drop_last()) + be32(refs.last().0 as int) + be32(refs.last().1 as int)
    }
}

/// The references of an object attribute are read back as they were written.
pub proof fn law_references_read_back(refs: Seq<(u32, u32)>)
    ensures
        word_pairs(reference_bytes(refs)) == refs,
        reference_bytes(refs).len() == 8 * refs.len(),
    decreases refs.len(),
{
    let buf = reference_bytes(refs);
    if refs.len() > 0 {
        let earlier = refs.drop_last();
        let before = reference_bytes(earlier);
        let half = before + be32(refs.last().0 as int);
        law_references_read_back(earlier);
        lemma_be32_read_back(refs.last().0, before);
        lemma_be32_read_back(refs.last().1, half);
        let n = before.len() as int;
        assert(u32_at(buf, n) == u32_at(half, n));
        assert forall|k: int| 0 <= k < refs.len() implies #[trigger] word_pairs(buf)[k]
            == refs[k] by {
            if k < earlier.len() {
                assert(u32_at(buf, 8 * k) == u32_at(before, 8 * k));
                assert(u32_at(buf, 8 * k + 4) == u32_at(before, 8 * k + 4));
                assert(word_pairs(before)[k] == earlier[k]);
            }
        }
    }
    assert(word_pairs(buf) =~= refs);
}

/// The pieces with a NUL between each and the next.
pub open spec fn joined_by_nul(pieces: Seq<Seq<u8>>) -> Seq<u8>
    decreases pieces.len(),
{
    if pieces.len() == 0 {
        Seq::empty()
    } else if pieces.len() == 1 {
        pieces[0]
    } else {
        joined_by_nul(pieces.drop_last()).push(0) + pieces.last()
    }
}

/// The pieces between the NULs hold no NUL, and put together again with NULs
/// between them they are the data.
pub proof fn law_split_loses_nothing(data: Seq<u8>)
    ensures
        split_at_nul(data).len() > 0,
        joined_by_nul(split_at_nul(data)) == data,
        forall|i: int|
            0 <= i < split_at_nul(data).len() ==> !(#[trigger] split_at_nul(data)[i]).contains(0),
    decreases data.len(),
{
    let pieces = split_at_nul(data);
    if data.len() > 0 {
        let earlier = data.drop_last();
        let before = split_at_nul(earlier);
        law_split_loses_nothing(earlier);
        if data.last() == 0 {
            assert(pieces.drop_last() =~= before);
            assert(joined_by_nul(pieces) =~= data);
        } else {
            assert(pieces.drop_last() =~= before.drop_last());
            assert(joined_by_nul(pieces) =~= joined_by_nul(before).push(data.last()));
            assert(joined_by_nul(pieces) =~= data);
            assert forall|i: int| 0 <= i < pieces.len() implies !(#[trigger] pieces[i]).contains(
                0,
            ) by {
                if i + 1 == pieces.len() {
                    let piece = before.last();
                    assert(!piece.contains(0));
                    if pieces[i].contains(0) {
                        let k = choose|k: int|
                            0 <= k < pieces[i].len() && pieces[i][k] == 0;
                        assert(piece[k] == 0);
                    }
                } else {
                    assert(pieces[i] == before[i]);
                }
            }
        }
    } else {
        assert(joined_by_nul(pieces) =~= data);
    }
}

/// NUL-terminated strings one after the other, as a string attribute holds them.
pub open spec fn string_bytes(strings: Seq<Seq<char>>) -> Seq<u8>
    decreases strings.len(),
{
    if strings.len() == 0 {
        Seq::empty()
    } else {
        (string_bytes(strings.drop_last()) + encode_utf8(strings.last())).push(0)
    }
}

proof fn lemma_scalar_has_no_nul(c: char)
    requires
        c != '\0',
    ensures
        !encode_scalar(c as u32).contains(0),
        encode_scalar(c as u32).len() > 0,
{
    char_is_scalar(c);
    let v = c as u32;
    assert(v != 0);
    assert(0 < v <= 0x7F ==> leading_byte_width_1(v) != 0) by (bit_vector);
    assert(leading_byte_width_2(v) != 0) by (bit_vector);
    assert(leading_byte_width_3(v) != 0) by (bit_vector);
    assert(leading_byte_width_4(v) != 0) by (bit_vector);
    assert(last_continuation_byte(v) != 0) by (bit_vector);
    assert(second_last_continuation_byte(v) != 0) by (bit_vector);
    assert(third_last_continuation_byte(v) != 0) by (bit_vector);
}

proof fn lemma_text_has_no_nul(text: Seq<char>)
    requires
        !text.contains('\0'),
    ensures
        !encode_utf8(text).contains(0),
        text.len() > 0 ==> encode_utf8(text).len() > 0,
    decreases text.len(),
{
    if text.len() > 0 {
        assert(text.contains(text[0]));
        lemma_scalar_has_no_nul(text[0]);
        let tail = text.drop_first();
        assert(!tail.contains('\0')) by {
            if tail.contains('\0') {
                let k = choose|k: int| 0 <= k < tail.len() && tail[k] == '\0';
                assert(text[k + 1] == '\0');
            }
        }
        lemma_text_has_no_nul(tail);
        let head = encode_scalar(text[0] as u32);
        let rest = encode_utf8(tail);
        if encode_utf8(text).contains(0) {
            let k = choose|k: int|
                0 <= k < encode_utf8(text).len() && encode_utf8(text)[k] == 0;
            if k < head.len() {
                assert(head[k] == 0);
            } else {
                assert(rest[k - head.len()] == 0);
            }
        }
    }
}

proof fn lemma_split_extended(data: Seq<u8>, piece: Seq<u8>)
    requires
        !piece.contains(0),
    ensures
        split_at_nul(data).len() > 0,
        split_at_nul(data + piece) == split_at_nul(data).drop_last().push(
            split_at_nul(data).last() + piece,
        ),
    decreases piece.len(),
{
    law_split_loses_nothing(data);
    let before = split_at_nul(data);
    if piece.len() == 0 {
        assert(data + piece =~= data);
        assert(before.last() + piece =~= before.last());
        assert(before =~= before.drop_last().push(before.last()));
    } else {
        let shorter = piece.drop_last();
        assert(piece.contains(piece.last()));
        assert(!shorter.contains(0)) by {
            if shorter.contains(0) {
                let k = choose|k: int| 0 <= k < shorter.len() && shorter[k] == 0;
                assert(piece[k] == 0);
            }
        }
        lemma_split_extended(data, shorter);
        assert((data + piece).drop_last() =~= data + shorter);
        let mid = split_at_nul(data + shorter);
        assert(mid.drop_last() =~= before.drop_last());
        assert(mid.last().push(piece.last()) =~= before.last() + piece);
    }
}

proof fn lemma_split_of_strings(strings: Seq<Seq<char>>)
    requires
        forall|i: int| 0 <= i < strings.len() ==> !(#[trigger] strings[i]).contains('\0'),
    ensures
        split_at_nul(string_bytes(strings)) == strings.map_values(
            |s: Seq<char>| encode_utf8(s),
        ).push(Seq::<u8>::empty()),
    decreases strings.len(),
{
    let encoded = strings.map_values(|s: Seq<char>| encode_utf8(s));
    if strings.len() == 0 {
        assert(encoded.push(Seq::<u8>::empty()) =~= seq![Seq::<u8>::empty()]);
    } else {
        let earlier = strings.drop_last();
        let before = string_bytes(earlier);
        let piece = encode_utf8(strings.last());
        let done = earlier.map_values(|s: Seq<char>| encode_utf8(s));
        lemma_split_of_strings(earlier);
        lemma_text_has_no_nul(strings.last());
        lemma_split_extended(before, piece);
        assert(done.push(Seq::<u8>::empty()).drop_last() =~= done);
        assert(Seq::<u8>::empty() + piece =~= piece);
        assert(split_at_nul(before + piece) == done.push(piece));
        assert(string_bytes(strings).drop_last() =~= before + piece);
        assert(encoded =~= done.push(piece));
    }
}

proof fn lemma_nonempty_keeps_all(pieces: Seq<Seq<u8>>)
    requires
        forall|i: int| 0 <= i < pieces.len() ==> (#[trigger] pieces[i]).len() > 0,
    ensures
        nonempty(pieces) == pieces,
    decreases pieces.len(),
{
    let full = |piece: Seq<u8>| piece.len() > 0;
    if pieces.len() == 0 {
        assert(nonempty(pieces) =~= pieces) by {
            reveal(Seq::filter);
        }
    } else {
        lemma_nonempty_keeps_all(pieces.drop_last());
        Seq::lemma_filter_push(pieces.drop_last(), pieces.last(), full);
        assert(pieces.drop_last().push(pieces.last()) =~= pieces);
    }
}

/// The strings of a string attribute are read back as they were written, where
/// none is empty and none holds a NUL.
pub proof fn law_strings_read_back(strings: Seq<Seq<char>>)
    requires
        forall|i: int|
            0 <= i < strings.len() ==> (#[trigger] strings[i]).len() > 0 && !strings[i].contains(
                '\0',
            ),
    ensures
        nul_strings(string_bytes(strings)) == strings,
{
    let full = |piece: Seq<u8>| piece.len() > 0;
    let read = |piece: Seq<u8>| text_of(piece);
    let encoded = strings.map_values(|s: Seq<char>| encode_utf8(s));
    lemma_split_of_strings(strings);
    assert forall|i: int| 0 <= i < encoded.len() implies (#[trigger] encoded[i]).len() > 0 by {
        lemma_text_has_no_nul(strings[i]);
    }
    lemma_nonempty_keeps_all(encoded);
    Seq::lemma_filter_push(encoded, Seq::<u8>::empty(), full);
    assert forall|i: int| 0 <= i < strings.len() implies #[trigger] encoded.map_values(read)[i]
        == strings[i] by {
        encode_utf8_valid_utf8(strings[i]);
        encode_utf8_decode_utf8(strings[i]);
    }
    assert(encoded.map_values(read) =~= strings);
}

proof fn lemma_split_of_both(a: Seq<u8>, b: Seq<u8>)
    ensures
        split_at_nul(a.push(0) + b) == split_at_nul(a) + split_at_nul(b),
        split_at_nul(a).len() > 0,
        split_at_nul(b).len() > 0,
    decreases b.len(),
{
    law_split_loses_nothing(a);
    law_split_loses_nothing(b);
    let whole = a.push(0) + b;
    if b.len() == 0 {
        assert(whole =~= a.push(0));
        assert(a.push(0).drop_last() =~= a);
        assert(split_at_nul(a).push(Seq::<u8>::empty()) =~= split_at_nul(a) + split_at_nul(b));
    } else {
        let shorter = b.drop_last();
        lemma_split_of_both(a, shorter);
        assert(whole.drop_last() =~= a.push(0) + shorter);
        assert(whole.last() == b.last());
        let before = split_at_nul(shorter);
        assert((split_at_nul(a) + before).drop_last() =~= split_at_nul(a) + before.drop_last());
        assert((split_at_nul(a) + before).last() == before.last());
        assert(split_at_nul(whole) =~= split_at_nul(a) + split_at_nul(b));
    }
}

proof fn lemma_split_of_one(piece: Seq<u8>)
    requires
        !piece.contains(0),
    ensures
        split_at_nul(piece) == seq![piece],
    decreases piece.len(),
{
    if piece.len() > 0 {
        let shorter = piece.drop_last();
        assert(!shorter.contains(0)) by {
            if shorter.contains(0) {
                let k = choose|k: int| 0 <= k < shorter.len() && shorter[k] == 0;
                assert(piece[k] == 0);
            }
        }
        lemma_split_of_one(shorter);
        assert(piece.contains(piece.last()));
        assert(shorter.push(piece.last()) =~= piece);
        assert(split_at_nul(piece) =~= seq![piece]);
    } else {
        assert(piece =~= Seq::<u8>::empty());
    }
}

/// The strings of a string attribute are the texts of the runs of bytes between
/// its NULs. A NUL parts what stands before it from what follows, and neither has
/// a bearing on the other.
pub proof fn law_nul_parts_strings(eltype: u8, a: Seq<u8>, b: Seq<u8>)
    requires
        64 <= eltype < 128,
    ensures
        decoded_value(eltype, a) is Str,
        decoded_value(eltype, b) is Str,
        decoded_value(eltype, a.push(0) + b) == AttrValue::Str(
            decoded_value(eltype, a)->Str_0 + decoded_value(eltype, b)->Str_0,
        ),
{
    let full = |piece: Seq<u8>| piece.len() > 0;
    let read = |piece: Seq<u8>| text_of(piece);
    lemma_split_of_both(a, b);
    Seq::filter_distributes_over_add(split_at_nul(a), split_at_nul(b), full);
    let x = split_at_nul(a).filter(full);
    let y = split_at_nul(b).filter(full);
    assert((x + y).map_values(read) =~= x.map_values(read) + y.map_values(read));
}

/// A run of bytes without a NUL is one string, all of it; no bytes are no string.
pub proof fn law_run_is_one_string(eltype: u8, run: Seq<u8>)
    requires
        64 <= eltype < 128,
        !run.contains(0),
    ensures
        run.len() == 0 ==> decoded_value(eltype, run) == AttrValue::Str(Seq::empty()),
        run.len() > 0 && valid_utf8(run) ==> decoded_value(eltype, run) == AttrValue::Str(
            seq![decode_utf8(run)],
        ),
        run.len() > 0 && !valid_utf8(run) ==> decoded_value(eltype, run) == AttrValue::Str(
            seq![repaired_text(run)],
        ),
{
    let full = |piece: Seq<u8>| piece.len() > 0;
    let none = Seq::<Seq<u8>>::empty();
    lemma_split_of_one(run);
    assert(none.push(run) =~= seq![run]);
    Seq::lemma_filter_push(none, run, full);
    assert(none.filter(full) =~= none) by {
        reveal(Seq::filter);
    }
    assert(nul_strings(run) =~= if run.len() == 0 {
        Seq::<Seq<char>>::empty()
    } else {
        seq![text_of(run)]
    });
}

/// A value read from bytes that were written for it is that value, whatever the
/// low bits of its element type.
pub proof fn law_values_read_back(
    eltype: u8,
    numbers: Seq<u32>,
    refs: Seq<(u32, u32)>,
    strings: Seq<Seq<char>>,
)
    requires
        forall|i: int|
            0 <= i < strings.len() ==> (#[trigger] strings[i]).len() > 0 && !strings[i].contains(
                '\0',
            ),
    ensures
        eltype < 64 ==> decoded_value(eltype, word_bytes(numbers)) == AttrValue::Int(numbers),
        64 <= eltype < 128 ==> decoded_value(eltype, string_bytes(strings)) == AttrValue::Str(
            strings,
        ),
        128 <= eltype < 192 ==> decoded_value(eltype, reference_bytes(refs)) == AttrValue::Object(
            refs,
        ),
        192 <= eltype ==> decoded_value(eltype, word_bytes(numbers)) == AttrValue::File(numbers),
{
    law_words_read_back(numbers);
    law_references_read_back(refs);
    law_strings_read_back(strings);
}

/// The bytes of a value.
pub open spec fn value_bytes(value: AttrValue) -> Seq<u8> {
    match value {
        AttrValue::Int(numbers) => word_bytes(numbers),
        AttrValue::File(numbers) => word_bytes(numbers),
        AttrValue::Object(refs) => reference_bytes(refs),
        AttrValue::Str(strings) => string_bytes(strings),
    }
}

/// An attribute can be written down: its element type is that of its value, no
/// string of it is empty or holds a NUL, and its length fits its header field.
pub open spec fn can_be_written(attribute: Attribute) -> bool {
    &&& 4 + value_bytes(attribute.value).len() <= u16::MAX
    &&& match attribute.value {
        AttrValue::Int(_) => attribute.eltype < 64,
        AttrValue::Str(strings) => 64 <= attribute.eltype < 128 && forall|k: int|
            0 <= k < strings.len() ==> (#[trigger] strings[k]).len() > 0 && !strings[k].contains(
                '\0',
            ),
        AttrValue::Object(_) => 128 <= attribute.eltype < 192,
        AttrValue::File(_) => 192 <= attribute.eltype,
    }
}

/// The attributes as they are written down.
pub open spec fn written_attributes(attributes: Seq<Attribute>) -> Seq<RawAttribute> {
    Seq::new(
        attributes.len(),
        |i: int|
            RawAttribute {
                eltype: attributes[i].eltype,
                id: attributes[i].id,
                data: value_bytes(attributes[i].value),
            },
    )
}

/// A subobject as it is written down, with header fields that carry no metadata.
pub open spec fn written_subobject(subobject: Subobject, len1: u16, fill: u32) -> RawSubobject {
    RawSubobject {
        len1,
        obj_type: subobject.obj_type,
        flags: subobject.flags,
        fill,
        id: subobject.id,
        attributes: written_attributes(subobject.attributes),
    }
}

proof fn lemma_written_subobject(subobject: Subobject, len1: u16, fill: u32)
    requires
        forall|i: int|
            0 <= i < subobject.attributes.len() ==> can_be_written(
                #[trigger] subobject.attributes[i],
            ),
    ensures
        written_subobject(subobject, len1, fill).meaning() == subobject,
        forall|i: int|
            0 <= i < subobject.attributes.len() ==> (#[trigger] written_attributes(
                subobject.attributes,
            )[i]).fits(),
{
    let written = written_attributes(subobject.attributes);
    assert forall|i: int| 0 <= i < subobject.attributes.len() implies (
    #[trigger] written[i]).meaning() == subobject.attributes[i] && written[i].fits() by {
        let attribute = subobject.attributes[i];
        match attribute.value {
            AttrValue::Int(numbers) => law_values_read_back(
                attribute.eltype,
                numbers,
                Seq::empty(),
                Seq::empty(),
            ),
            AttrValue::File(numbers) => law_values_read_back(
                attribute.eltype,
                numbers,
                Seq::empty(),
                Seq::empty(),
            ),
            AttrValue::Object(refs) => law_values_read_back(
                attribute.eltype,
                Seq::empty(),
                refs,
                Seq::empty(),
            ),
            AttrValue::Str(strings) => law_values_read_back(
                attribute.eltype,
                Seq::empty(),
                Seq::empty(),
                strings,
            ),
        }
    }
    assert(written_subobject(subobject, len1, fill).meaning().attributes =~= subobject.attributes);
}

/// Parsing reads back every subobject that was written, with its type, flags and
/// id, and every attribute of it with its id, its element type and all the values
/// that were written, whatever the other header fields hold and whatever bytes
/// follow.
pub proof fn law_written_objects_read_back(
    fill1: u32,
    subobjects: Seq<Subobject>,
    headers: Seq<(u16, u32)>,
    trailing: Seq<u8>,
)
    requires
        headers.len() == subobjects.len(),
        forall|i: int, k: int|
            0 <= i < subobjects.len() && 0 <= k < subobjects[i].attributes.len() ==> can_be_written(
                #[trigger] subobjects[i].attributes[k],
            ),
        forall|i: int|
            0 <= i < subobjects.len() ==> 16 + attribute_bytes(
                written_attributes((#[trigger] subobjects[i]).attributes),
            ).len() <= u16::MAX,
        8 + subobject_bytes(
            Seq::new(
                subobjects.len(),
                |i: int| written_subobject(subobjects[i], headers[i].0, headers[i].1),
            ),
        ).len() <= u32::MAX,
    ensures
        parsed_object(
            object_bytes(
                fill1,
                Seq::new(
                    subobjects.len(),
                    |i: int| written_subobject(subobjects[i], headers[i].0, headers[i].1),
                ),
            ) + trailing,
        ) == subobjects,
{
    let written = Seq::new(
        subobjects.len(),
        |i: int| written_subobject(subobjects[i], headers[i].0, headers[i].1),
    );
    assert forall|i: int| 0 <= i < written.len() implies (#[trigger] written[i]).fits()
        && written[i].meaning() == subobjects[i] by {
        lemma_written_subobject(subobjects[i], headers[i].0, headers[i].1);
    }
    law_parse_reads_back(fill1, written, trailing);
    assert(meanings(written) =~= subobjects);
}

/// The attributes lie one after the other in `buf`, at the given offsets, with the
/// end of the last behind them. Each has the id, the element type and the length
/// of its header, and the value that its bytes stand for, as far as they are
/// there; the next follows at a multiple of four. The last is followed by too few
/// bytes for a header, or by a header with a length below its own.
pub open spec fn attributes_lie_at(
    buf: Seq<u8>,
    attributes: Seq<Attribute>,
    offsets: Seq<int>,
) -> bool {
    let end = offsets[attributes.len() as int];
    &&& offsets.len() == attributes.len() + 1
    &&& forall|i: int|
        0 <= i < attributes.len() ==> {
            let at = #[trigger] offsets[i];
            let len = buf[at + 2] * 256 + buf[at + 3];
            let stop = if at + len < buf.len() {
                at + len
            } else {
                buf.len() as int
            };
            &&& offsets[0] <= at
            &&& at + 4 <= buf.len()
            &&& len >= 4
            &&& attributes[i].eltype == buf[at]
            &&& attributes[i].id == buf[at + 1]
            &&& attributes[i].value == decoded_value(buf[at], buf.subrange(at + 4, stop))
            &&& offsets[i + 1] == at + (len + 3) / 4 * 4
        }
    &&& end + 4 > buf.len() || buf[end + 2] * 256 + buf[end + 3] < 4
}

proof fn lemma_attributes_lie_from(buf: Seq<u8>, at: int) -> (offsets: Seq<int>)
    requires
        0 <= at,
    ensures
        attributes_lie_at(
            buf,
            attributes_in(
                buf.skip(if at < buf.len() {
                    at
                } else {
                    buf.len() as int
                }),
            ),
            offsets,
        ),
        offsets[0] == at,
    decreases
            if at < buf.len() {
                buf.len() - at
            } else {
                0
            },
{
    let from = if at < buf.len() {
        at
    } else {
        buf.len() as int
    };
    let rest = buf.skip(from);
    if rest.len() < 4 || u16_at(rest, 2) < 4 {
        assert(rest.len() >= 4 ==> rest[2] == buf[at + 2] && rest[3] == buf[at + 3]);
        seq![at]
    } else {
        assert(rest[0] == buf[at] && rest[1] == buf[at + 1]);
        assert(rest[2] == buf[at + 2] && rest[3] == buf[at + 3]);
        let len = u16_at(rest, 2) as int;
        let next = at + aligned(len);
        let offsets = lemma_attributes_lie_from(buf, next);
        let found = attributes_in(rest);
        let stop = if next < buf.len() {
            next
        } else {
            buf.len() as int
        };
        let later = attributes_in(buf.skip(stop));
        assert(rest.skip(at_most(aligned(len), rest.len() as int)) =~= buf.skip(stop));
        assert(rest.subrange(4, at_most(len, rest.len() as int)) =~= buf.subrange(
            at + 4,
            at_most(at + len, buf.len() as int),
        ));
        let all = seq![at] + offsets;
        assert forall|i: int| 0 <= i < found.len() implies {
            let o = #[trigger] all[i];
            let len = buf[o + 2] * 256 + buf[o + 3];
            let stop = if o + len < buf.len() {
                o + len
            } else {
                buf.len() as int
            };
            &&& all[0] <= o
            &&& o + 4 <= buf.len()
            &&& len >= 4
            &&& found[i].eltype == buf[o]
            &&& found[i].id == buf[o + 1]
            &&& found[i].value == decoded_value(buf[o], buf.subrange(o + 4, stop))
            &&& all[i + 1] == o + (len + 3) / 4 * 4
        } by {
            if i > 0 {
                assert(all[i] == offsets[i - 1]);
                assert(all[i + 1] == offsets[i]);
                assert(found[i] == later[i - 1]);
            } else {
                assert(all[1] == offsets[0]);
            }
        }
        assert(all[found.len() as int] == offsets[later.len() as int]);
        all
    }
}

/// In any bytes at all, the attributes read are those whose headers lie one after
/// the other from the start on, as far as that goes.
pub proof fn law_attributes_lie_one_after_the_other(buf: Seq<u8>)
    ensures
        exists|offsets: Seq<int>| #[trigger]
            attributes_lie_at(buf, attributes_in(buf), offsets) && offsets[0] == 0,
{
    let offsets = lemma_attributes_lie_from(buf, 0);
    assert(buf.skip(0) =~= buf);
}

/// The subobjects lie one after the other in `buf`, from byte eight on, before
/// `end`. Each has the type, the flags and the id of its header, and the
/// attributes of the bytes that its length takes in. The last is followed by too
/// few bytes for a header, or by a header whose length is below its own or runs
/// beyond `end`.
pub open spec fn subobjects_lie_at(
    buf: Seq<u8>,
    end: int,
    subobjects: Seq<Subobject>,
    offsets: Seq<int>,
) -> bool {
    let last = offsets[subobjects.len() as int];
    let last_len = buf[last] * 256 + buf[last + 1];
    &&& offsets.len() == subobjects.len() + 1
    &&& forall|i: int|
        0 <= i < subobjects.len() ==> {
            let at = #[trigger] offsets[i];
            let len = buf[at] * 256 + buf[at + 1];
            &&& offsets[0] <= at
            &&& at + 16 <= at + len <= end
            &&& subobjects[i].obj_type == buf[at + 4] * 256 + buf[at + 5]
            &&& subobjects[i].flags == buf[at + 6] * 256 + buf[at + 7]
            &&& subobjects[i].id == ((buf[at + 12] * 256 + buf[at + 13]) * 256 + buf[at + 14]) * 256
                + buf[at + 15]
            &&& subobjects[i].attributes == attributes_in(buf.subrange(at + 16, at + len))
            &&& offsets[i + 1] == at + len
        }
    &&& last + 16 > end || last_len < 16 || last + last_len > end
}

proof fn lemma_subobjects_lie_from(buf: Seq<u8>, end: int, at: int) -> (offsets: Seq<int>)
    requires
        0 <= at <= end <= buf.len(),
    ensures
        subobjects_lie_at(buf, end, subobjects_in(buf.subrange(at, end)), offsets),
        offsets[0] == at,
    decreases end - at,
{
    let rest = buf.subrange(at, end);
    if rest.len() < 16 || u16_at(rest, 0) < 16 || u16_at(rest, 0) > rest.len() {
        assert(rest.len() >= 16 ==> rest[0] == buf[at] && rest[1] == buf[at + 1]);
        seq![at]
    } else {
        assert(rest[0] == buf[at] && rest[1] == buf[at + 1]);
        let len = u16_at(rest, 0) as int;
        let offsets = lemma_subobjects_lie_from(buf, end, at + len);
        let found = subobjects_in(rest);
        let later = subobjects_in(buf.subrange(at + len, end));
        let whole = rest.take(len);
        assert(rest.skip(len) =~= buf.subrange(at + len, end));
        assert(whole.skip(16) =~= buf.subrange(at + 16, at + len));
        assert(whole[4] == buf[at + 4] && whole[5] == buf[at + 5]);
        assert(whole[6] == buf[at + 6] && whole[7] == buf[at + 7]);
        assert(whole[12] == buf[at + 12] && whole[13] == buf[at + 13]);
        assert(whole[14] == buf[at + 14] && whole[15] == buf[at + 15]);
        let all = seq![at] + offsets;
        assert forall|i: int| 0 <= i < found.len() implies {
            let o = #[trigger] all[i];
            let len = buf[o] * 256 + buf[o + 1];
            &&& all[0] <= o
            &&& o + 16 <= o + len <= end
            &&& found[i].obj_type == buf[o + 4] * 256 + buf[o + 5]
            &&& found[i].flags == buf[o + 6] * 256 + buf[o + 7]
            &&& found[i].id == ((buf[o + 12] * 256 + buf[o + 13]) * 256 + buf[o + 14]) * 256 + buf[o
                + 15]
            &&& found[i].attributes == attributes_in(buf.subrange(o + 16, o + len))
            &&& all[i + 1] == o + len
        } by {
            if i > 0 {
                assert(all[i] == offsets[i - 1]);
                assert(all[i + 1] == offsets[i]);
                assert(found[i] == later[i - 1]);
            } else {
                assert(all[1] == offsets[0]);
                assert(found[0] == subobject_of(whole));
            }
        }
        assert(all[found.len() as int] == offsets[later.len() as int]);
        all
    }
}

/// In any bytes at all, the subobjects read are those whose headers lie one after
/// the other behind the header of the object, up to the size that it gives or the
/// end of the bytes, as far as that goes.
pub proof fn law_subobjects_lie_one_after_the_other(buf: Seq<u8>)
    ensures
        buf.len() < 8 ==> parsed_object(buf) == Seq::<Subobject>::empty(),
        buf.len() >= 8 ==> exists|end: int, offsets: Seq<int>|
            {
                let size = ((buf[4] * 256 + buf[5]) * 256 + buf[6]) * 256 + buf[7];
                &&& #[trigger] subobjects_lie_at(buf, end, parsed_object(buf), offsets)
                &&& offsets[0] == 8
                &&& size < buf.len() ==> end == size
                &&& size >= buf.len() ==> end == buf.len()
            },
{
    if buf.len() >= 8 {
        let size = u32_at(buf, 4) as int;
        assert(size == ((buf[4] * 256 + buf[5]) * 256 + buf[6]) * 256 + buf[7]);
        let end = at_most(size, buf.len() as int);
        if size < 8 {
            assert(parsed_object(buf) =~= Seq::<Subobject>::empty());
            assert(subobjects_lie_at(buf, end, parsed_object(buf), seq![8int]));
        } else {
            let offsets = lemma_subobjects_lie_from(buf, end, 8);
            assert(subobjects_lie_at(buf, end, parsed_object(buf), offsets));
        }
    }
}

} // verus!
