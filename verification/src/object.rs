//! Parser for the TiVo MFS database "object" format (a.k.a. tyDB objects).
//!
//! The filesystem layer (inodes and directory entries) only tells where bytes
//! live. The program and recording metadata (titles, descriptions, air dates)
//! is the data of "database" inodes, in the format below. Which `attr` id means
//! "Title" and so on comes from `schema.txt`.
//!
//! All integers are big-endian:
//!
//! ```text
//! object:
//!   u32 fill1
//!   u32 size            // total object length in bytes
//!   repeated subobjects until `size` is reached
//!
//! subobject (16 byte header):
//!   u16 len             // total subobject length, including this header
//!   u16 len1
//!   u16 obj_type        // schema object type (3=Program, 14=Recording, ...)
//!   u16 flags
//!   u16 fill[2]
//!   u32 id
//!   ... attributes fill the remaining (len - 16) bytes
//!
//! attribute (4 byte header):
//!   u8  eltype          // (eltype >> 6) selects the value type
//!   u8  attr            // schema field id (17=Title on a Program, ...)
//!   u16 len             // total attribute length, including this header
//!   ... value bytes, then padded so the next attribute is 4-byte aligned
//! ```

use vstd::prelude::*;
use vstd::slice::slice_subrange;
use vstd::utf8::valid_utf8;

use crate::text::{law_decoded_text_is_plain, text_of, utf8_lossy};

verus! {

/// The decoded value of an attribute. `eltype >> 6` selects which of these it is.
#[derive(Debug, Clone)]
pub enum MFSAttrValue {
    /// `TYPE_INT` (0): one or more big-endian `u32`s.
    Int(Vec<u32>),
    /// `TYPE_STRING` (1): one or more NUL-terminated strings.
    Str(Vec<String>),
    /// `TYPE_OBJECT` (2): references to other objects, as `(fsid, subobj)` pairs.
    Object(Vec<(u32, u32)>),
    /// `TYPE_FILE` (3): file references, stored like ints.
    File(Vec<u32>),
}

#[derive(Debug, Clone)]
pub struct MFSAttribute {
    pub id: u8,
    pub eltype: u8,
    pub value: MFSAttrValue,
}

#[derive(Debug, Clone)]
pub struct MFSSubobject {
    pub obj_type: u16,
    pub flags: u16,
    pub id: u32,
    pub attributes: Vec<MFSAttribute>,
}

#[derive(Debug, Clone)]
pub struct MFSObject {
    pub subobjects: Vec<MFSSubobject>,
}

/// What an [`MFSAttrValue`] holds.
pub enum AttrValue {
    Int(Seq<u32>),
    Str(Seq<Seq<char>>),
    Object(Seq<(u32, u32)>),
    File(Seq<u32>),
}

/// No string is empty, and none holds a NUL.
pub open spec fn are_plain(strings: Seq<Seq<char>>) -> bool {
    forall|k: int|
        0 <= k < strings.len() ==> (#[trigger] strings[k]).len() > 0 && !strings[k].contains('\0')
}

impl AttrValue {
    /// No string that the value holds is empty, and none holds a NUL.
    pub open spec fn has_plain_strings(self) -> bool {
        match self {
            AttrValue::Str(values) => are_plain(values),
            _ => true,
        }
    }
}

/// What an [`MFSAttribute`] holds.
pub struct Attribute {
    pub id: u8,
    pub eltype: u8,
    pub value: AttrValue,
}

/// No string of any attribute is empty, and none holds a NUL.
pub open spec fn have_plain_strings(attributes: Seq<Attribute>) -> bool {
    forall|i: int| 0 <= i < attributes.len() ==> (#[trigger] attributes[i]).value.has_plain_strings()
}

/// What an [`MFSSubobject`] holds.
pub struct Subobject {
    pub obj_type: u16,
    pub flags: u16,
    pub id: u32,
    pub attributes: Seq<Attribute>,
}

/// The texts of a list of strings.
pub open spec fn texts(strings: Seq<String>) -> Seq<Seq<char>> {
    strings.map_values(|s: String| s@)
}

impl View for MFSAttrValue {
    type V = AttrValue;

    open spec fn view(&self) -> AttrValue {
        match self {
            MFSAttrValue::Int(values) => AttrValue::Int(values@),
            MFSAttrValue::Str(values) => AttrValue::Str(texts(values@)),
            MFSAttrValue::Object(refs) => AttrValue::Object(refs@),
            MFSAttrValue::File(values) => AttrValue::File(values@),
        }
    }
}

impl View for MFSAttribute {
    type V = Attribute;

    open spec fn view(&self) -> Attribute {
        Attribute { id: self.id, eltype: self.eltype, value: self.value@ }
    }
}

/// What the attributes of a list hold.
pub open spec fn attribute_views(attributes: Seq<MFSAttribute>) -> Seq<Attribute> {
    attributes.map_values(|a: MFSAttribute| a@)
}

impl View for MFSSubobject {
    type V = Subobject;

    open spec fn view(&self) -> Subobject {
        Subobject {
            obj_type: self.obj_type,
            flags: self.flags,
            id: self.id,
            attributes: attribute_views(self.attributes@),
        }
    }
}

/// What the subobjects of a list hold.
pub open spec fn subobject_views(subobjects: Seq<MFSSubobject>) -> Seq<Subobject> {
    subobjects.map_values(|s: MFSSubobject| s@)
}

impl View for MFSObject {
    type V = Seq<Subobject>;

    open spec fn view(&self) -> Seq<Subobject> {
        subobject_views(self.subobjects@)
    }
}

/// What is said of a value, an attribute, a subobject or an object is said of all
/// that it holds: nothing is left out or changed.
pub proof fn law_views_hold_everything(
    value: MFSAttrValue,
    attribute: MFSAttribute,
    subobject: MFSSubobject,
    object: MFSObject,
    strings: Seq<String>,
)
    ensures
        texts(strings).len() == strings.len(),
        forall|k: int| 0 <= k < strings.len() ==> #[trigger] texts(strings)[k] == strings[k]@,
        value matches MFSAttrValue::Int(v) ==> value@ == AttrValue::Int(v@),
        value matches MFSAttrValue::File(v) ==> value@ == AttrValue::File(v@),
        value matches MFSAttrValue::Object(v) ==> value@ == AttrValue::Object(v@),
        value matches MFSAttrValue::Str(v) ==> value@ == AttrValue::Str(
            v@.map_values(|s: String| s@),
        ),
        attribute@.id == attribute.id,
        attribute@.eltype == attribute.eltype,
        attribute@.value == attribute.value@,
        subobject@.obj_type == subobject.obj_type,
        subobject@.flags == subobject.flags,
        subobject@.id == subobject.id,
        subobject@.attributes.len() == subobject.attributes@.len(),
        forall|k: int|
            0 <= k < subobject.attributes@.len() ==> #[trigger] subobject@.attributes[k]
                == subobject.attributes@[k]@,
        object@.len() == object.subobjects@.len(),
        forall|k: int|
            0 <= k < object.subobjects@.len() ==> #[trigger] object@[k] == object.subobjects@[k]@,
{
}

/// The big-endian 16-bit integer at `ofs`.
pub open spec fn u16_at(buf: Seq<u8>, ofs: int) -> u16 {
    (buf[ofs] * 256 + buf[ofs + 1]) as u16
}

/// The big-endian 32-bit integer at `ofs`.
pub open spec fn u32_at(buf: Seq<u8>, ofs: int) -> u32 {
    (((buf[ofs] * 256 + buf[ofs + 1]) * 256 + buf[ofs + 2]) * 256 + buf[ofs + 3]) as u32
}

/// The big-endian 32-bit integers that `data` holds; a rest of fewer than four
/// bytes holds none.
pub open spec fn words(data: Seq<u8>) -> Seq<u32> {
    Seq::new(data.len() / 4, |i: int| u32_at(data, 4 * i))
}

/// The pairs of big-endian 32-bit integers that `data` holds; a rest of fewer
/// than eight bytes holds none.
pub open spec fn word_pairs(data: Seq<u8>) -> Seq<(u32, u32)> {
    Seq::new(data.len() / 8, |i: int| (u32_at(data, 8 * i), u32_at(data, 8 * i + 4)))
}

/// The pieces of `data` between its NUL bytes: one more than there are NULs.
pub open spec fn split_at_nul(data: Seq<u8>) -> Seq<Seq<u8>>
    decreases data.len(),
{
    if data.len() == 0 {
        seq![Seq::<u8>::empty()]
    } else {
        let before = split_at_nul(data.drop_last());
        if data.last() == 0 {
            before.push(Seq::<u8>::empty())
        } else {
            before.drop_last().push(before.last().push(data.last()))
        }
    }
}

/// The pieces that hold at least one byte.
pub open spec fn nonempty(pieces: Seq<Seq<u8>>) -> Seq<Seq<u8>> {
    pieces.filter(|piece: Seq<u8>| piece.len() > 0)
}

/// The NUL-terminated strings that `data` holds, empty ones left out.
pub open spec fn nul_strings(data: Seq<u8>) -> Seq<Seq<char>> {
    nonempty(split_at_nul(data)).map_values(|piece: Seq<u8>| text_of(piece))
}

/// The value that the bytes `data` of an attribute of type `eltype` stand for.
pub open spec fn decoded_value(eltype: u8, data: Seq<u8>) -> AttrValue {
    if eltype / 64 == 1 {
        AttrValue::Str(nul_strings(data))
    } else if eltype / 64 == 2 {
        AttrValue::Object(word_pairs(data))
    } else if eltype / 64 == 3 {
        AttrValue::File(words(data))
    } else {
        AttrValue::Int(words(data))
    }
}

/// `len` rounded up to a multiple of four.
pub open spec fn aligned(len: int) -> int {
    (len + 3) / 4 * 4
}

pub open spec fn at_most(n: int, limit: int) -> int {
    if n < limit {
        n
    } else {
        limit
    }
}

/// The attributes that `buf` starts with: each takes the length that its header
/// gives, rounded up to a multiple of four; the list ends where no header is
/// left or a header gives a length below four. An attribute that runs past the
/// end of `buf` has the bytes that are there.
pub open spec fn attributes_in(buf: Seq<u8>) -> Seq<Attribute>
    decreases buf.len(),
{
    if buf.len() < 4 || u16_at(buf, 2) < 4 {
        Seq::empty()
    } else {
        let len = u16_at(buf, 2) as int;
        let size = buf.len() as int;
        let attribute = Attribute {
            id: buf[1],
            eltype: buf[0],
            value: decoded_value(buf[0], buf.subrange(4, at_most(len, size))),
        };
        seq![attribute] + attributes_in(buf.skip(at_most(aligned(len), size)))
    }
}

/// The subobject that the bytes `buf`, header and all, stand for.
pub open spec fn subobject_of(buf: Seq<u8>) -> Subobject {
    Subobject {
        obj_type: u16_at(buf, 4),
        flags: u16_at(buf, 6),
        id: u32_at(buf, 12),
        attributes: attributes_in(buf.skip(16)),
    }
}

/// The subobjects that `buf` starts with: each takes the length that its header
/// gives; the list ends where no header is left, or where a header gives a
/// length below sixteen or beyond the end of `buf`.
pub open spec fn subobjects_in(buf: Seq<u8>) -> Seq<Subobject>
    decreases buf.len(),
{
    if buf.len() < 16 || u16_at(buf, 0) < 16 || u16_at(buf, 0) > buf.len() {
        Seq::empty()
    } else {
        let len = u16_at(buf, 0) as int;
        seq![subobject_of(buf.take(len))] + subobjects_in(buf.skip(len))
    }
}

/// The part of an object buffer that holds its subobjects: what follows the
/// header, up to the size that the header gives or the end of the buffer.
pub open spec fn object_body(buf: Seq<u8>) -> Seq<u8> {
    let size = u32_at(buf, 4) as int;
    if buf.len() < 8 || size < 8 {
        Seq::empty()
    } else {
        buf.subrange(8, at_most(size, buf.len() as int))
    }
}

/// The subobjects that an object buffer holds.
pub open spec fn parsed_object(buf: Seq<u8>) -> Seq<Subobject> {
    subobjects_in(object_body(buf))
}

/// Reads the big-endian 16-bit integer at `ofs`.
pub fn be_u16(buf: &[u8], ofs: usize) -> (value: u16)
    requires
        ofs + 2 <= buf@.len(),
    ensures
        value == u16_at(buf@, ofs as int),
        value == buf@[ofs as int] * 256 + buf@[ofs + 1],
{
    buf[ofs] as u16 * 256 + buf[ofs + 1] as u16
}

/// Reads the big-endian 32-bit integer at `ofs`.
pub fn be_u32(buf: &[u8], ofs: usize) -> (value: u32)
    requires
        ofs + 4 <= buf@.len(),
    ensures
        value == u32_at(buf@, ofs as int),
        value == ((buf@[ofs as int] * 256 + buf@[ofs + 1]) * 256 + buf@[ofs + 2]) * 256 + buf@[ofs
            + 3],
{
    ((buf[ofs] as u32 * 256 + buf[ofs + 1] as u32) * 256 + buf[ofs + 2] as u32) * 256 + buf[ofs
        + 3] as u32
}

fn decode_words(data: &[u8]) -> (ints: Vec<u32>)
    ensures
        ints@ == words(data@),
{
    let mut ints: Vec<u32> = Vec::new();
    let mut i: usize = 0;
    while data.len() - i >= 4
        invariant
            i <= data@.len(),
            i == 4 * ints@.len(),
            forall|k: int| 0 <= k < ints@.len() ==> ints@[k] == u32_at(data@, 4 * k),
        decreases data@.len() - i,
    {
        ints.push(be_u32(data, i));
        i += 4;
    }
    assert(ints@ =~= words(data@));
    ints
}

fn decode_word_pairs(data: &[u8]) -> (refs: Vec<(u32, u32)>)
    ensures
        refs@ == word_pairs(data@),
{
    let mut refs: Vec<(u32, u32)> = Vec::new();
    let mut i: usize = 0;
    while data.len() - i >= 8
        invariant
            i <= data@.len(),
            i == 8 * refs@.len(),
            forall|k: int|
                0 <= k < refs@.len() ==> refs@[k] == (
                    u32_at(data@, 8 * k),
                    u32_at(data@, 8 * k + 4),
                ),
        decreases data@.len() - i,
    {
        refs.push((be_u32(data, i), be_u32(data, i + 4)));
        i += 8;
    }
    assert(refs@ =~= word_pairs(data@));
    refs
}

/// The text of a piece between two NULs.
fn decode_piece(piece: &[u8]) -> (text: String)
    requires
        piece@.len() > 0,
        !piece@.contains(0),
    ensures
        text@ == text_of(piece@),
        text@.len() > 0,
        !text@.contains('\0'),
{
    let text = utf8_lossy(piece);
    proof {
        if valid_utf8(piece@) {
            law_decoded_text_is_plain(piece@);
        }
    }
    text
}

proof fn lemma_plain_strings_grow(values: Seq<Seq<char>>, text: Seq<char>)
    requires
        are_plain(values),
        text.len() > 0,
        !text.contains('\0'),
    ensures
        are_plain(values.push(text)),
{
    let more = values.push(text);
    assert forall|k: int| 0 <= k < more.len() implies (#[trigger] more[k]).len() > 0
        && !more[k].contains('\0') by {
        if k < values.len() {
            assert(more[k] == values[k]);
        }
    }
}

fn decode_strings(data: &[u8]) -> (strings: Vec<String>)
    ensures
        texts(strings@) == nul_strings(data@),
        are_plain(texts(strings@)),
{
    let mut strings: Vec<String> = Vec::new();
    let mut start: usize = 0;
    let mut i: usize = 0;
    let ghost mut done: Seq<Seq<u8>> = Seq::empty();
    let ghost full = |piece: Seq<u8>| piece.len() > 0;
    let ghost read = |piece: Seq<u8>| text_of(piece);
    proof {
        assert(data@.take(0) =~= Seq::<u8>::empty());
        assert(data@.subrange(0, 0) =~= Seq::<u8>::empty());
        assert(done.push(data@.subrange(0, 0)) =~= seq![Seq::<u8>::empty()]);
        assert(done.filter(full) =~= Seq::<Seq<u8>>::empty()) by {
            reveal(Seq::filter);
        }
        assert(texts(strings@) =~= done.filter(full).map_values(read));
    }
    while i < data.len()
        invariant
            start <= i <= data@.len(),
            full == (|piece: Seq<u8>| piece.len() > 0),
            read == (|piece: Seq<u8>| text_of(piece)),
            split_at_nul(data@.take(i as int)) == done.push(
                data@.subrange(start as int, i as int),
            ),
            texts(strings@) == done.filter(full).map_values(read),
            forall|k: int| start <= k < i ==> data@[k] != 0,
            are_plain(texts(strings@)),
        decreases data@.len() - i,
    {
        proof {
            assert(data@.take(i + 1).drop_last() =~= data@.take(i as int));
            let piece = data@.subrange(start as int, i as int);
            assert(done.push(piece).drop_last() =~= done);
            if data@[i as int] != 0 {
                assert(data@.subrange(start as int, i + 1) =~= piece.push(data@[i as int]));
            } else {
                assert(data@.subrange(i + 1, i + 1) =~= Seq::<u8>::empty());
            }
        }
        if data[i] == 0 {
            proof {
                let piece = data@.subrange(start as int, i as int);
                Seq::lemma_filter_push(done, piece, full);
                done = done.push(piece);
            }
            if i > start {
                let ghost earlier = strings@;
                let ghost kept = done.drop_last().filter(full);
                strings.push(decode_piece(slice_subrange(data, start, i)));
                proof {
                    assert(done.drop_last().push(done.last()) =~= done);
                    lemma_plain_strings_grow(texts(earlier), strings@.last()@);
                    assert(texts(strings@) =~= texts(earlier).push(strings@.last()@));
                    assert(done.filter(full) == kept.push(done.last()));
                    assert(done.filter(full).map_values(read) =~= kept.map_values(read).push(
                        text_of(done.last()),
                    ));
                }
            }
            start = i + 1;
        }
        i += 1;
    }
    let ghost piece = data@.subrange(start as int, i as int);
    proof {
        assert(data@.take(i as int) =~= data@);
        Seq::lemma_filter_push(done, piece, full);
    }
    if i > start {
        let ghost earlier = strings@;
        strings.push(decode_piece(slice_subrange(data, start, i)));
        proof {
            lemma_plain_strings_grow(texts(earlier), strings@.last()@);
            assert(texts(strings@) =~= texts(earlier).push(strings@.last()@));
            assert(done.push(piece).filter(full) == done.filter(full).push(piece));
            assert(done.push(piece).filter(full).map_values(read) =~= done.filter(full).map_values(
                read,
            ).push(text_of(piece)));
        }
    }
    strings
}

/// Decodes the value bytes of an attribute.
pub fn decode_value(eltype: u8, data: &[u8]) -> (value: MFSAttrValue)
    ensures
        value@ == decoded_value(eltype, data@),
        value@.has_plain_strings(),
        value matches MFSAttrValue::Str(v) ==> forall|k: int|
            0 <= k < v@.len() ==> (#[trigger] v@[k])@.len() > 0 && !v@[k]@.contains('\0'),
        value matches MFSAttrValue::Str(v) ==> decoded_value(eltype, data@) == AttrValue::Str(
            v@.map_values(|s: String| s@),
        ),
        value is Int <==> eltype < 64,
        value is Str <==> 64 <= eltype < 128,
        value is Object <==> 128 <= eltype < 192,
        value is File <==> 192 <= eltype,
        value matches MFSAttrValue::Int(v) ==> v@.len() == data@.len() / 4 && forall|i: int|
            0 <= i < v@.len() ==> #[trigger] v@[i] == ((data@[4 * i] * 256 + data@[4 * i + 1]) * 256
                + data@[4 * i + 2]) * 256 + data@[4 * i + 3],
        value matches MFSAttrValue::File(v) ==> v@.len() == data@.len() / 4 && forall|i: int|
            0 <= i < v@.len() ==> #[trigger] v@[i] == ((data@[4 * i] * 256 + data@[4 * i + 1]) * 256
                + data@[4 * i + 2]) * 256 + data@[4 * i + 3],
        value matches MFSAttrValue::Object(v) ==> v@.len() == data@.len() / 8 && forall|i: int|
            0 <= i < v@.len() ==> {
                let (fsid, subobj) = #[trigger] v@[i];
                &&& fsid == ((data@[8 * i] * 256 + data@[8 * i + 1]) * 256 + data@[8 * i + 2]) * 256
                    + data@[8 * i + 3]
                &&& subobj == ((data@[8 * i + 4] * 256 + data@[8 * i + 5]) * 256 + data@[8 * i
                    + 6]) * 256 + data@[8 * i + 7]
            },
{
    assert(eltype >> 6 == eltype / 64) by (bit_vector);
    match eltype >> 6 {
        1 => {
            // Strings are packed and NUL terminated. Empty trailing pieces (from
            // the final terminator) are dropped.
            let strings = decode_strings(data);
            proof {
                assert forall|k: int| 0 <= k < strings@.len() implies (
                #[trigger] strings@[k])@.len() > 0 && !strings@[k]@.contains('\0') by {
                    assert(texts(strings@)[k] == strings@[k]@);
                }
            }
            MFSAttrValue::Str(strings)
        },
        2 => MFSAttrValue::Object(decode_word_pairs(data)),
        3 => MFSAttrValue::File(decode_words(data)),
        _ => MFSAttrValue::Int(decode_words(data)),
    }
}

/// Parses the attributes of a subobject.
pub fn parse_attributes(buf: &[u8]) -> (attrs: Vec<MFSAttribute>)
    ensures
        attribute_views(attrs@) == attributes_in(buf@),
        have_plain_strings(attribute_views(attrs@)),
        attrs@.len() == attributes_in(buf@).len(),
        forall|i: int|
            0 <= i < attrs@.len() ==> {
                let read = attributes_in(buf@)[i];
                &&& (#[trigger] attrs@[i]).id == read.id
                &&& attrs@[i].eltype == read.eltype
                &&& attrs@[i].value@ == read.value
            },
{
    let mut attrs: Vec<MFSAttribute> = Vec::new();
    let mut ofs: usize = 0;
    proof {
        assert(buf@.skip(0) =~= buf@);
        assert(attribute_views(attrs@) + attributes_in(buf@) =~= attributes_in(buf@));
    }
    while buf.len() - ofs >= 4
        invariant
            ofs <= buf@.len(),
            attribute_views(attrs@) + attributes_in(buf@.skip(ofs as int)) == attributes_in(buf@),
            have_plain_strings(attribute_views(attrs@)),
        ensures
            attribute_views(attrs@) == attributes_in(buf@),
        decreases buf@.len() - ofs,
    {
        let ghost rest = buf@.skip(ofs as int);
        let eltype: u8 = buf[ofs];
        let id: u8 = buf[ofs + 1];
        let len: usize = be_u16(buf, ofs + 2) as usize;
        assert(u16_at(rest, 2) == u16_at(buf@, ofs + 2));
        // A length smaller than the header, or zero, would never terminate the
        // loop: bail out instead of spinning on corrupt data.
        if len < 4 {
            assert(attribute_views(attrs@) + Seq::<Attribute>::empty() =~= attribute_views(attrs@));
            break;
        }
        let left: usize = buf.len() - ofs;
        let data_len: usize = if len < left {
            len
        } else {
            left
        };
        let value = decode_value(eltype, slice_subrange(buf, ofs + 4, ofs + data_len));
        let ghost earlier = attrs@;
        attrs.push(MFSAttribute { id, eltype, value });
        let step: usize = (len + 3) / 4 * 4;
        let ghost before = ofs as int;
        ofs = if step < left {
            ofs + step
        } else {
            buf.len()
        };
        proof {
            assert(buf@.subrange(before + 4, before + data_len) =~= rest.subrange(
                4,
                data_len as int,
            ));
            assert(buf@.skip(ofs as int) =~= rest.skip(at_most(step as int, left as int)));
            let attribute = attrs@.last()@;
            assert(attribute_views(attrs@) =~= attribute_views(earlier).push(attribute));
            let tail = attributes_in(buf@.skip(ofs as int));
            assert(attributes_in(rest) == seq![attribute] + tail);
            assert(attribute_views(attrs@) + tail =~= attribute_views(earlier) + (seq![attribute]
                + tail));
        }
    }
    attrs
}

/// The first of `subobjects` that has the type `obj_type`.
pub open spec fn first_subobject(subobjects: Seq<Subobject>, obj_type: u16) -> Option<Subobject>
    decreases subobjects.len(),
{
    if subobjects.len() == 0 {
        None
    } else if subobjects[0].obj_type == obj_type {
        Some(subobjects[0])
    } else {
        first_subobject(subobjects.drop_first(), obj_type)
    }
}

/// The first of `attributes` that has the id `id`.
pub open spec fn first_attribute(attributes: Seq<Attribute>, id: u8) -> Option<Attribute>
    decreases attributes.len(),
{
    if attributes.len() == 0 {
        None
    } else if attributes[0].id == id {
        Some(attributes[0])
    } else {
        first_attribute(attributes.drop_first(), id)
    }
}

impl Subobject {
    /// All strings of the string attribute `id`; none where there is no such
    /// attribute or it is of another type.
    pub open spec fn strings(self, id: u8) -> Seq<Seq<char>> {
        match first_attribute(self.attributes, id) {
            Some(attribute) => match attribute.value {
                AttrValue::Str(values) => values,
                _ => Seq::empty(),
            },
            None => Seq::empty(),
        }
    }

    /// The first string of the string attribute `id`.
    pub open spec fn string(self, id: u8) -> Option<Seq<char>> {
        if self.strings(id).len() > 0 {
            Some(self.strings(id)[0])
        } else {
            None
        }
    }

    /// The first integer of the int or file attribute `id`.
    pub open spec fn integer(self, id: u8) -> Option<u32> {
        match first_attribute(self.attributes, id) {
            Some(attribute) => match attribute.value {
                AttrValue::Int(values) | AttrValue::File(values) => if values.len() > 0 {
                    Some(values[0])
                } else {
                    None
                },
                _ => None,
            },
            None => None,
        }
    }

    /// The first fsid that the object attribute `id` refers to.
    pub open spec fn object_fsid(self, id: u8) -> Option<u32> {
        match first_attribute(self.attributes, id) {
            Some(attribute) => match attribute.value {
                AttrValue::Object(refs) => if refs.len() > 0 {
                    Some(refs[0].0)
                } else {
                    None
                },
                _ => None,
            },
            None => None,
        }
    }
}

impl MFSObject {
    /// Parse an object buffer (the raw data of a Db inode). This is deliberately
    /// tolerant: malformed or truncated buffers yield whatever could be parsed
    /// rather than an error, so a partially-recovered drive still surfaces data.
    pub fn parse(buf: &[u8]) -> (object: MFSObject)
        ensures
            object@ == parsed_object(buf@),
            forall|i: int|
                0 <= i < object@.len() ==> have_plain_strings((#[trigger] object@[i]).attributes),
            object.subobjects@.len() == parsed_object(buf@).len(),
            forall|i: int|
                0 <= i < object.subobjects@.len() ==> {
                    let read = parsed_object(buf@)[i];
                    &&& (#[trigger] object.subobjects@[i]).obj_type == read.obj_type
                    &&& object.subobjects@[i].flags == read.flags
                    &&& object.subobjects@[i].id == read.id
                    &&& object.subobjects@[i].attributes@.len() == read.attributes.len()
                    &&& forall|k: int|
                        0 <= k < read.attributes.len() ==> (
                        #[trigger] object.subobjects@[i].attributes@[k])@ == read.attributes[k]
                },
    {
        let mut subobjects: Vec<MFSSubobject> = Vec::new();
        if buf.len() < 8 {
            assert(subobject_views(subobjects@) =~= Seq::<Subobject>::empty());
            return MFSObject { subobjects };
        }
        let size: usize = be_u32(buf, 4) as usize;
        if size < 8 {
            assert(subobject_views(subobjects@) =~= Seq::<Subobject>::empty());
            return MFSObject { subobjects };
        }
        let end: usize = if size < buf.len() {
            size
        } else {
            buf.len()
        };
        let ghost body = buf@.subrange(8, end as int);
        let mut ofs: usize = 8;
        proof {
            assert(subobject_views(subobjects@) + subobjects_in(body) =~= subobjects_in(body));
        }
        while end - ofs >= 16
            invariant
                8 <= ofs <= end <= buf@.len(),
                subobject_views(subobjects@) + subobjects_in(
                    buf@.subrange(ofs as int, end as int),
                ) == subobjects_in(body),
                forall|i: int|
                    0 <= i < subobjects@.len() ==> have_plain_strings(
                        (#[trigger] subobjects@[i])@.attributes,
                    ),
            ensures
                subobject_views(subobjects@) == subobjects_in(body),
            decreases end - ofs,
        {
            let ghost rest = buf@.subrange(ofs as int, end as int);
            let len: usize = be_u16(buf, ofs) as usize;
            let obj_type: u16 = be_u16(buf, ofs + 4);
            let flags: u16 = be_u16(buf, ofs + 6);
            let id: u32 = be_u32(buf, ofs + 12);
            assert(u16_at(rest, 0) == u16_at(buf@, ofs as int));

            // Guard against corrupt lengths that would loop forever or run off
            // the end of the buffer.
            if len < 16 || len > end - ofs {
                assert(subobject_views(subobjects@) + Seq::<Subobject>::empty()
                    =~= subobject_views(subobjects@));
                break;
            }
            let attributes = parse_attributes(slice_subrange(buf, ofs + 16, ofs + len));
            let ghost earlier = subobjects@;
            subobjects.push(MFSSubobject { obj_type, flags, id, attributes });
            let ghost before = ofs as int;
            ofs += len;
            proof {
                let whole = rest.take(len as int);
                assert(buf@.subrange(before + 16, before + len) =~= whole.skip(16));
                assert(u16_at(whole, 4) == u16_at(buf@, before + 4));
                assert(u16_at(whole, 6) == u16_at(buf@, before + 6));
                assert(u32_at(whole, 12) == u32_at(buf@, before + 12));
                let subobject = subobjects@.last()@;
                assert(subobject == subobject_of(whole));
                assert(buf@.subrange(ofs as int, end as int) =~= rest.skip(len as int));
                let tail = subobjects_in(rest.skip(len as int));
                assert(subobject_views(subobjects@) =~= subobject_views(earlier).push(subobject));
                assert(subobject_views(subobjects@) + tail =~= subobject_views(earlier) + (
                seq![subobject] + tail));
            }
        }
        MFSObject { subobjects }
    }

    /// Whether a subobject of the type is there.
    pub fn has_type(&self, obj_type: u16) -> (found: bool)
        ensures
            found == exists|i: int|
                0 <= i < self.subobjects@.len() && #[trigger] self.subobjects@[i].obj_type
                    == obj_type,
            found == (first_subobject(self@, obj_type) is Some),
    {
        self.first_of_type(obj_type).is_some()
    }

    /// The first subobject of the type.
    pub fn first_of_type(&self, obj_type: u16) -> (found: Option<&MFSSubobject>)
        ensures
            match found {
                Some(s) => exists|i: int|
                    {
                        &&& 0 <= i < self.subobjects@.len()
                        &&& #[trigger] self.subobjects@[i] == *s
                        &&& s.obj_type == obj_type
                        &&& forall|j: int| 0 <= j < i ==> self.subobjects@[j].obj_type != obj_type
                    },
                None => forall|i: int|
                    0 <= i < self.subobjects@.len() ==> #[trigger] self.subobjects@[i].obj_type
                        != obj_type,
            },
            first_subobject(self@, obj_type) == (match found {
                Some(s) => Some(s@),
                None => None,
            }),
    {
        let mut i: usize = 0;
        assert(self@.skip(0) =~= self@);
        while i < self.subobjects.len()
            invariant
                i <= self.subobjects@.len(),
                forall|j: int| 0 <= j < i ==> self.subobjects@[j].obj_type != obj_type,
                first_subobject(self@.skip(i as int), obj_type) == first_subobject(
                    self@,
                    obj_type,
                ),
            decreases self.subobjects@.len() - i,
        {
            assert(self@.skip(i as int)[0] == self.subobjects@[i as int]@);
            if self.subobjects[i].obj_type == obj_type {
                return Some(&self.subobjects[i]);
            }
            assert(self@.skip(i as int).drop_first() =~= self@.skip(i + 1));
            i += 1;
        }
        None
    }
}

impl MFSSubobject {
    /// The first attribute with the id.
    pub fn attribute(&self, id: u8) -> (found: Option<&MFSAttribute>)
        ensures
            match found {
                Some(a) => exists|i: int|
                    {
                        &&& 0 <= i < self.attributes@.len()
                        &&& #[trigger] self.attributes@[i] == *a
                        &&& a.id == id
                        &&& forall|j: int| 0 <= j < i ==> self.attributes@[j].id != id
                    },
                None => forall|i: int|
                    0 <= i < self.attributes@.len() ==> #[trigger] self.attributes@[i].id != id,
            },
            first_attribute(self@.attributes, id) == (match found {
                Some(a) => Some(a@),
                None => None,
            }),
    {
        let ghost views = self@.attributes;
        let mut i: usize = 0;
        assert(views.skip(0) =~= views);
        while i < self.attributes.len()
            invariant
                i <= self.attributes@.len(),
                views == self@.attributes,
                forall|j: int| 0 <= j < i ==> self.attributes@[j].id != id,
                first_attribute(views.skip(i as int), id) == first_attribute(views, id),
            decreases self.attributes@.len() - i,
        {
            assert(views.skip(i as int)[0] == self.attributes@[i as int]@);
            if self.attributes[i].id == id {
                return Some(&self.attributes[i]);
            }
            assert(views.skip(i as int).drop_first() =~= views.skip(i + 1));
            i += 1;
        }
        None
    }

    /// First string value of a string attribute.
    pub fn string(&self, id: u8) -> (value: Option<String>)
        ensures
            self@.string(id) == (match value {
                Some(s) => Some(s@),
                None => None,
            }),
            forall|i: int|
                0 <= i < self.attributes@.len() && (#[trigger] self.attributes@[i]).id == id && (
                forall|j: int| 0 <= j < i ==> (#[trigger] self.attributes@[j]).id != id) ==> (
                match self.attributes@[i].value {
                    MFSAttrValue::Str(v) => (value is Some <==> v@.len() > 0) && (value matches Some(
                        s,
                    ) ==> s@ == v@[0]@),
                    _ => value is None,
                }),
            (forall|i: int|
                0 <= i < self.attributes@.len() ==> (#[trigger] self.attributes@[i]).id != id)
                ==> value is None,
    {
        match self.attribute(id) {
            Some(attribute) => match &attribute.value {
                MFSAttrValue::Str(values) => if values.len() > 0 {
                    Some(values[0].clone())
                } else {
                    None
                },
                _ => None,
            },
            None => None,
        }
    }

    /// All string values of a string attribute.
    pub fn strings(&self, id: u8) -> (values: Vec<String>)
        ensures
            texts(values@) == self@.strings(id),
            forall|i: int|
                0 <= i < self.attributes@.len() && (#[trigger] self.attributes@[i]).id == id && (
                forall|j: int| 0 <= j < i ==> (#[trigger] self.attributes@[j]).id != id) ==> (
                match self.attributes@[i].value {
                    MFSAttrValue::Str(v) => values@.len() == v@.len() && forall|k: int|
                        0 <= k < v@.len() ==> (#[trigger] values@[k])@ == v@[k]@,
                    _ => values@.len() == 0,
                }),
            (forall|i: int|
                0 <= i < self.attributes@.len() ==> (#[trigger] self.attributes@[i]).id != id)
                ==> values@.len() == 0,
    {
        let mut found: Vec<String> = Vec::new();
        if let Some(attribute) = self.attribute(id) {
            if let MFSAttrValue::Str(values) = &attribute.value {
                let mut i: usize = 0;
                while i < values.len()
                    invariant
                        i <= values@.len(),
                        texts(found@) == texts(values@).take(i as int),
                    decreases values@.len() - i,
                {
                    let ghost earlier = found@;
                    found.push(values[i].clone());
                    i += 1;
                    assert(texts(found@) =~= texts(earlier).push(values@[i - 1]@));
                    assert(texts(found@) =~= texts(values@).take(i as int));
                }
                assert(texts(values@).take(i as int) =~= texts(values@));
                assert(texts(found@).len() == found@.len() && texts(values@).len() == values@.len());
                assert forall|k: int| 0 <= k < values@.len() implies (#[trigger] found@[k])@
                    == values@[k]@ by {
                    assert(texts(found@)[k] == texts(values@)[k]);
                }
            }
        }
        assert(self@.strings(id).len() == 0 ==> texts(found@) =~= self@.strings(id));
        found
    }

    /// First integer value of an int attribute.
    pub fn integer(&self, id: u8) -> (value: Option<u32>)
        ensures
            value == self@.integer(id),
            forall|i: int|
                0 <= i < self.attributes@.len() && (#[trigger] self.attributes@[i]).id == id && (
                forall|j: int| 0 <= j < i ==> (#[trigger] self.attributes@[j]).id != id) ==> (
                match self.attributes@[i].value {
                    MFSAttrValue::Int(v) | MFSAttrValue::File(v) => value == (if v@.len() > 0 {
                        Some(v@[0])
                    } else {
                        None
                    }),
                    _ => value is None,
                }),
            (forall|i: int|
                0 <= i < self.attributes@.len() ==> (#[trigger] self.attributes@[i]).id != id)
                ==> value is None,
    {
        match self.attribute(id) {
            Some(attribute) => match &attribute.value {
                MFSAttrValue::Int(values) | MFSAttrValue::File(values) => if values.len() > 0 {
                    Some(values[0])
                } else {
                    None
                },
                _ => None,
            },
            None => None,
        }
    }

    /// First referenced fsid of an object attribute.
    pub fn object_fsid(&self, id: u8) -> (fsid: Option<u32>)
        ensures
            fsid == self@.object_fsid(id),
            forall|i: int|
                0 <= i < self.attributes@.len() && (#[trigger] self.attributes@[i]).id == id && (
                forall|j: int| 0 <= j < i ==> (#[trigger] self.attributes@[j]).id != id) ==> (
                match self.attributes@[i].value {
                    MFSAttrValue::Object(v) => fsid == (if v@.len() > 0 {
                        Some(v@[0].0)
                    } else {
                        None
                    }),
                    _ => fsid is None,
                }),
            (forall|i: int|
                0 <= i < self.attributes@.len() ==> (#[trigger] self.attributes@[i]).id != id)
                ==> fsid is None,
    {
        match self.attribute(id) {
            Some(attribute) => match &attribute.value {
                MFSAttrValue::Object(refs) => if refs.len() > 0 {
                    Some(refs[0].0)
                } else {
                    None
                },
                _ => None,
            },
            None => None,
        }
    }
}

} // verus!
