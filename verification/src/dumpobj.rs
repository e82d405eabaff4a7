//! A diagnostic for the MFS database object format.
//!
//! Use it to inspect the raw bytes (and attempted parse) of a single object,
//! either by fsid or by searching every small inode for one whose data contains
//! a known string (e.g. a recording title found with `strings`). This is how to
//! calibrate the object parser against a real drive when titles aren't being
//! decoded as expected.

use vstd::prelude::*;
use vstd::slice::slice_subrange;
use vstd::utf8::encode_utf8;

use crate::object::{
    at_most, be_u32, parsed_object, subobject_views, texts, u32_at, Attribute, AttrValue,
    MFSAttrValue, MFSAttribute, MFSObject, MFSSubobject, Subobject,
};
use crate::scan::{progress_due, PROGRESS_INTERVAL};
use crate::text::{
    contains_bytes, decimal, digit, escaped_text, hexadecimal, occurs_in, pad_left, pad_right,
    padded_left, padded_right, quoted, quoted_text, to_decimal, to_hexadecimal,
};

verus! {

/// How many bytes a line of a dump shows.
pub const BYTES_PER_LINE: usize = 16;

/// How wide the hexadecimal column of a dump is.
pub const HEX_COLUMN: usize = 47;

/// How many bytes are dumped of an object asked for.
pub const DUMP_BYTES: usize = 512;

/// How many bytes are dumped of an object found.
pub const MATCH_DUMP_BYTES: usize = 1024;

/// After how many matches a search stops.
pub const MAX_MATCHES: u32 = 5;

/// A byte in two hexadecimal digits.
pub open spec fn hex_byte(byte: u8) -> Seq<char> {
    padded_left(hexadecimal(byte as nat), 2, '0')
}

/// The items, with `between` between them.
pub open spec fn separated(items: Seq<Seq<char>>, between: Seq<char>) -> Seq<char>
    decreases items.len(),
{
    if items.len() == 0 {
        Seq::empty()
    } else if items.len() == 1 {
        items[0]
    } else {
        separated(items.drop_last(), between) + between + items.last()
    }
}

/// A byte as a character; a dot where it is not printable ASCII.
pub open spec fn shown(byte: u8) -> char {
    if 32 <= byte <= 126 {
        byte as char
    } else {
        '.'
    }
}

/// The line of a dump for the bytes at `offset`.
pub open spec fn dump_line(offset: nat, bytes: Seq<u8>) -> Seq<char> {
    "  "@ + padded_left(hexadecimal(offset), 8, '0') + "  "@ + padded_right(
        separated(bytes.map_values(|b: u8| hex_byte(b)), " "@),
        HEX_COLUMN as nat,
        ' ',
    ) + "  "@ + bytes.map_values(|b: u8| shown(b))
}

/// The bytes of line `k` of a dump.
pub open spec fn dump_bytes(data: Seq<u8>, k: int) -> Seq<u8> {
    data.subrange(16 * k, at_most(16 * k + 16, data.len() as int))
}

/// The lines of a dump of all of `data`.
pub open spec fn dump_of(data: Seq<u8>) -> Seq<Seq<char>> {
    Seq::new(
        ((data.len() + 15) / 16) as nat,
        |k: int| dump_line((16 * k) as nat, dump_bytes(data, k)),
    )
}

/// The lines of a dump of at most `max_bytes` of `data`. The last says how much
/// was left out.
pub open spec fn dump_lines(data: Seq<u8>, max_bytes: int) -> Seq<Seq<char>> {
    let limit = at_most(data.len() as int, max_bytes);
    dump_of(data.take(limit)) + if data.len() > limit {
        seq!["  ... ("@ + decimal((data.len() - limit) as nat) + " more bytes)"@]
    } else {
        Seq::empty()
    }
}

/// A dump of no more than `max_bytes` leaves out the rest, and then says how many
/// bytes that is.
pub proof fn law_dump_says_what_it_leaves_out(data: Seq<u8>, max_bytes: int)
    requires
        0 <= max_bytes,
    ensures
        data.len() <= max_bytes ==> dump_lines(data, max_bytes) == dump_of(data),
        data.len() > max_bytes ==> dump_lines(data, max_bytes) == dump_of(
            data.take(max_bytes),
        ).push("  ... ("@ + decimal((data.len() - max_bytes) as nat) + " more bytes)"@),
{
    if data.len() <= max_bytes {
        assert(data.take(data.len() as int) =~= data);
        assert(dump_lines(data, max_bytes) =~= dump_of(data));
    } else {
        assert(dump_lines(data, max_bytes) =~= dump_of(data.take(max_bytes)).push(
            "  ... ("@ + decimal((data.len() - max_bytes) as nat) + " more bytes)"@,
        ));
    }
}

/// Items are written one after the other, with what is to stand between them
/// between each and the next, and nothing before the first or behind the last.
pub proof fn law_separated_items_follow_each_other(
    items: Seq<Seq<char>>,
    between: Seq<char>,
    item: Seq<char>,
)
    ensures
        separated(Seq::empty(), between) == Seq::<char>::empty(),
        items.len() == 0 ==> separated(items.push(item), between) == item,
        items.len() > 0 ==> separated(items.push(item), between) == separated(items, between)
            + between + item,
{
    assert(items.push(item).drop_last() =~= items);
}

fn join(items: &Vec<String>, between: &str) -> (text: String)
    ensures
        text@ == separated(texts(items@), between@),
{
    let mut text = String::new();
    let mut i: usize = 0;
    let ghost all = texts(items@);
    while i < items.len()
        invariant
            i <= items@.len(),
            all == texts(items@),
            text@ == separated(all.take(i as int), between@),
        decreases items@.len() - i,
    {
        let ghost before = text@;
        if i > 0 {
            text.append(between);
        }
        text.append(&items[i]);
        i += 1;
        proof {
            let taken = all.take(i as int);
            assert(taken.drop_last() =~= all.take(i - 1));
            assert(taken.last() == items@[i - 1]@);
            assert(text@ =~= separated(taken, between@));
        }
    }
    assert(all.take(i as int) =~= all);
    text
}

fn hex_line(offset: usize, bytes: &[u8]) -> (line: String)
    ensures
        line@ == dump_line(offset as nat, bytes@),
{
    let mut hex: Vec<String> = Vec::new();
    let mut ascii = String::new();
    let mut i: usize = 0;
    while i < bytes.len()
        invariant
            i <= bytes@.len(),
            texts(hex@) == bytes@.take(i as int).map_values(|b: u8| hex_byte(b)),
            ascii@ == bytes@.take(i as int).map_values(|b: u8| shown(b)),
        decreases bytes@.len() - i,
    {
        let byte: u8 = bytes[i];
        let ghost had = texts(hex@);
        let digits = pad_left(&to_hexadecimal(byte as u64), 2, '0');
        hex.push(digits);
        if 32 <= byte && byte <= 126 {
            ascii.push(byte as char);
        } else {
            ascii.push('.');
        }
        i += 1;
        proof {
            assert(texts(hex@) =~= had.push(hex_byte(byte)));
            assert(bytes@.take(i as int) =~= bytes@.take(i - 1).push(byte));
            assert(texts(hex@) =~= bytes@.take(i as int).map_values(|b: u8| hex_byte(b)));
            assert(ascii@ =~= bytes@.take(i as int).map_values(|b: u8| shown(b)));
        }
    }
    assert(bytes@.take(i as int) =~= bytes@);
    let mut line = "  ".to_owned();
    line.append(&pad_left(&to_hexadecimal(offset as u64), 8, '0'));
    line.append("  ");
    line.append(&pad_right(&join(&hex, " "), HEX_COLUMN, ' '));
    line.append("  ");
    line.append(&ascii);
    line
}

/// Dumps at most `max_bytes` of `data`, in hexadecimal and ASCII.
pub fn hex_dump(data: &[u8], max_bytes: usize) -> (lines: Vec<String>)
    ensures
        texts(lines@) == dump_lines(data@, max_bytes as int),
        data@.len() <= max_bytes ==> texts(lines@) == dump_of(data@),
        data@.len() > max_bytes ==> texts(lines@) == dump_of(data@.take(max_bytes as int)).push(
            "  ... ("@ + decimal((data@.len() - max_bytes) as nat) + " more bytes)"@,
        ),
{
    proof {
        law_dump_says_what_it_leaves_out(data@, max_bytes as int);
    }
    let limit: usize = if data.len() < max_bytes {
        data.len()
    } else {
        max_bytes
    };
    let ghost part = data@.take(limit as int);
    let mut lines: Vec<String> = Vec::new();
    let mut offset: usize = 0;
    let ghost mut k: int = 0;
    while offset < limit
        invariant
            limit <= data@.len(),
            part == data@.take(limit as int),
            0 <= k,
            offset == at_most(16 * k, limit as int),
            k <= (part.len() + 15) / 16,
            texts(lines@) == dump_of(part).take(k),
        decreases limit - offset,
    {
        let end: usize = if limit - offset < BYTES_PER_LINE {
            limit
        } else {
            offset + BYTES_PER_LINE
        };
        let ghost had = texts(lines@);
        let line = hex_line(offset, slice_subrange(data, offset, end));
        lines.push(line);
        proof {
            assert(data@.subrange(offset as int, end as int) =~= dump_bytes(part, k));
            assert(texts(lines@) =~= had.push(line@));
            assert(texts(lines@) =~= dump_of(part).take(k + 1));
            k = k + 1;
        }
        offset = end;
    }
    assert(dump_of(part).take(k) =~= dump_of(part));
    if data.len() > limit {
        let ghost had = texts(lines@);
        let mut line = "  ... (".to_owned();
        line.append(&to_decimal((data.len() - limit) as u64));
        line.append(" more bytes)");
        lines.push(line);
        assert(texts(lines@) =~= had.push(line@));
    }
    assert(texts(lines@) =~= dump_lines(data@, max_bytes as int));
    lines
}

/// A list as `{:?}` writes it.
pub open spec fn list_text(items: Seq<Seq<char>>) -> Seq<char> {
    "["@ + separated(items, ", "@) + "]"@
}

/// A reference as `{:?}` writes it.
pub open spec fn pair_text(pair: (u32, u32)) -> Seq<char> {
    "("@ + decimal(pair.0 as nat) + ", "@ + decimal(pair.1 as nat) + ")"@
}

/// A value in one line: its type, and all that it holds.
pub open spec fn value_text(value: AttrValue) -> Seq<char> {
    match value {
        AttrValue::Int(values) => "int "@ + list_text(
            values.map_values(|v: u32| decimal(v as nat)),
        ),
        AttrValue::File(values) => "file "@ + list_text(
            values.map_values(|v: u32| decimal(v as nat)),
        ),
        AttrValue::Object(refs) => "object "@ + list_text(
            refs.map_values(|r: (u32, u32)| pair_text(r)),
        ),
        AttrValue::Str(values) => "string "@ + list_text(
            values.map_values(|v: Seq<char>| quoted_text(v)),
        ),
    }
}

fn list_line(label: &str, items: &Vec<String>) -> (text: String)
    ensures
        text@ == label@ + list_text(texts(items@)),
{
    let mut text = label.to_owned();
    text.append("[");
    text.append(&join(items, ", "));
    text.append("]");
    assert(text@ =~= label@ + list_text(texts(items@)));
    text
}

fn number_items(values: &Vec<u32>) -> (items: Vec<String>)
    ensures
        texts(items@) == values@.map_values(|v: u32| decimal(v as nat)),
{
    let mut items: Vec<String> = Vec::new();
    let mut i: usize = 0;
    while i < values.len()
        invariant
            i <= values@.len(),
            texts(items@) == values@.take(i as int).map_values(|v: u32| decimal(v as nat)),
        decreases values@.len() - i,
    {
        let ghost had = texts(items@);
        let item = to_decimal(values[i] as u64);
        items.push(item);
        i += 1;
        assert(texts(items@) =~= had.push(item@));
        assert(texts(items@) =~= values@.take(i as int).map_values(|v: u32| decimal(v as nat)));
    }
    assert(values@.take(i as int) =~= values@);
    items
}

fn pair_items(refs: &Vec<(u32, u32)>) -> (items: Vec<String>)
    ensures
        texts(items@) == refs@.map_values(|r: (u32, u32)| pair_text(r)),
{
    let mut items: Vec<String> = Vec::new();
    let mut i: usize = 0;
    while i < refs.len()
        invariant
            i <= refs@.len(),
            texts(items@) == refs@.take(i as int).map_values(|r: (u32, u32)| pair_text(r)),
        decreases refs@.len() - i,
    {
        let ghost had = texts(items@);
        let mut item = "(".to_owned();
        item.append(&to_decimal(refs[i].0 as u64));
        item.append(", ");
        item.append(&to_decimal(refs[i].1 as u64));
        item.append(")");
        items.push(item);
        i += 1;
        assert(texts(items@) =~= had.push(item@));
        assert(texts(items@) =~= refs@.take(i as int).map_values(|r: (u32, u32)| pair_text(r)));
    }
    assert(refs@.take(i as int) =~= refs@);
    items
}

fn quoted_items(values: &Vec<String>) -> (items: Vec<String>)
    ensures
        texts(items@) == texts(values@).map_values(|v: Seq<char>| quoted_text(v)),
{
    let mut items: Vec<String> = Vec::new();
    let mut i: usize = 0;
    while i < values.len()
        invariant
            i <= values@.len(),
            texts(items@) == texts(values@).take(i as int).map_values(
                |v: Seq<char>| quoted_text(v),
            ),
        decreases values@.len() - i,
    {
        let ghost had = texts(items@);
        let item = quoted(&values[i]);
        items.push(item);
        i += 1;
        assert(texts(items@) =~= had.push(item@));
        assert(texts(items@) =~= texts(values@).take(i as int).map_values(
            |v: Seq<char>| quoted_text(v),
        ));
    }
    assert(texts(values@).take(i as int) =~= texts(values@));
    items
}

/// A value is written as the name of its type and the list of all that it holds:
/// numbers in decimal, references as pairs, strings in quotes.
pub proof fn law_values_are_written_in_full(
    numbers: Seq<u32>,
    refs: Seq<(u32, u32)>,
    strings: Seq<Seq<char>>,
)
    ensures
        value_text(AttrValue::Int(numbers)) == "int "@ + ("["@ + separated(
            numbers.map_values(|v: u32| decimal(v as nat)),
            ", "@,
        ) + "]"@),
        value_text(AttrValue::File(numbers)) == "file "@ + ("["@ + separated(
            numbers.map_values(|v: u32| decimal(v as nat)),
            ", "@,
        ) + "]"@),
        value_text(AttrValue::Object(refs)) == "object "@ + ("["@ + separated(
            refs.map_values(
                |r: (u32, u32)|
                    "("@ + decimal(r.0 as nat) + ", "@ + decimal(r.1 as nat) + ")"@,
            ),
            ", "@,
        ) + "]"@),
        value_text(AttrValue::Str(strings)) == "string "@ + ("["@ + separated(
            strings.map_values(|v: Seq<char>| quoted_text(v)),
            ", "@,
        ) + "]"@),
{
    assert(refs.map_values(|r: (u32, u32)| pair_text(r)) =~= refs.map_values(
        |r: (u32, u32)| "("@ + decimal(r.0 as nat) + ", "@ + decimal(r.1 as nat) + ")"@,
    ));
}

/// Text in which nothing needs escaping stands between its quotes as it is; other
/// text is written as `{:?}` escapes it.
pub proof fn law_plain_text_is_quoted_as_it_is(text: Seq<char>)
    ensures
        (forall|i: int|
            0 <= i < text.len() ==> ' ' <= #[trigger] text[i] <= '~' && text[i] != '"' && text[i]
                != '\\') ==> quoted_text(text) == seq!['"'] + text + seq!['"'],
        !(forall|i: int|
            0 <= i < text.len() ==> ' ' <= #[trigger] text[i] <= '~' && text[i] != '"' && text[i]
                != '\\') ==> quoted_text(text) == escaped_text(text),
{
}

/// Writes a value in one line.
pub fn summarize_value(value: &MFSAttrValue) -> (text: String)
    ensures
        text@ == value_text(value@),
{
    match value {
        MFSAttrValue::Int(values) => list_line("int ", &number_items(values)),
        MFSAttrValue::File(values) => list_line("file ", &number_items(values)),
        MFSAttrValue::Object(refs) => list_line("object ", &pair_items(refs)),
        MFSAttrValue::Str(values) => list_line("string ", &quoted_items(values)),
    }
}

/// A hexadecimal number of `digits` digits, marked as such.
pub open spec fn hex_number(n: nat, digits: nat) -> Seq<char> {
    "0x"@ + padded_left(hexadecimal(n), digits, '0')
}

/// A hexadecimal number is marked as such and written in full: zeros in front of
/// its digits fill up the places asked for, and none are added where there are as
/// many digits already.
pub proof fn law_numbers_are_marked_as_hexadecimal(n: nat, digits: nat)
    ensures
        hexadecimal(n).len() >= digits ==> hex_number(n, digits) == "0x"@ + hexadecimal(n),
        hexadecimal(n).len() < digits ==> hex_number(n, digits) == "0x"@ + (Seq::new(
            (digits - hexadecimal(n).len()) as nat,
            |i: int| '0',
        ) + hexadecimal(n)),
{
    if hexadecimal(n).len() < digits {
        assert(padded_left(hexadecimal(n), digits, '0') =~= Seq::new(
            (digits - hexadecimal(n).len()) as nat,
            |i: int| '0',
        ) + hexadecimal(n));
    } else {
        assert(padded_left(hexadecimal(n), digits, '0') =~= hexadecimal(n));
    }
}

fn write_hex(n: u64, digits: usize) -> (text: String)
    ensures
        text@ == hex_number(n as nat, digits as nat),
{
    let mut text = "0x".to_owned();
    text.append(&pad_left(&to_hexadecimal(n), digits, '0'));
    text
}

/// The line for an attribute.
pub open spec fn attribute_line(attribute: Attribute) -> Seq<char> {
    "    attr id="@ + padded_right(decimal(attribute.id as nat), 3, ' ') + " eltype="@ + hex_number(
        attribute.eltype as nat,
        2,
    ) + " -> "@ + value_text(attribute.value)
}

/// The line that heads a subobject.
pub open spec fn subobject_line(subobject: Subobject) -> Seq<char> {
    "  subobject obj_type="@ + decimal(subobject.obj_type as nat) + " flags="@ + hex_number(
        subobject.flags as nat,
        4,
    ) + " id="@ + decimal(subobject.id as nat) + " ("@ + decimal(subobject.attributes.len())
        + " attributes)"@
}

/// The lines for a subobject and its attributes.
pub open spec fn subobject_lines(subobject: Subobject) -> Seq<Seq<char>> {
    seq![subobject_line(subobject)] + subobject.attributes.map_values(
        |a: Attribute| attribute_line(a),
    )
}

/// The lines for all subobjects.
pub open spec fn all_subobject_lines(subobjects: Seq<Subobject>) -> Seq<Seq<char>>
    decreases subobjects.len(),
{
    if subobjects.len() == 0 {
        Seq::empty()
    } else {
        all_subobject_lines(subobjects.drop_last()) + subobject_lines(subobjects.last())
    }
}

/// The line for the header of an object.
pub open spec fn header_line(data: Seq<u8>) -> Seq<char> {
    "  object header: fill1="@ + decimal(u32_at(data, 0) as nat) + " size="@ + decimal(
        u32_at(data, 4) as nat,
    ) + " (buffer is "@ + decimal(data.len()) + " bytes)"@
}

/// The lines for an object: its header, where there is room for one, and all that
/// could be parsed.
pub open spec fn object_lines(data: Seq<u8>) -> Seq<Seq<char>> {
    let header = if data.len() >= 8 {
        seq![header_line(data)]
    } else {
        Seq::empty()
    };
    let subobjects = parsed_object(data);
    header + if subobjects.len() == 0 {
        seq!["  (no subobjects parsed)"@]
    } else {
        all_subobject_lines(subobjects)
    }
}

/// The lines of an attribute, a subobject and a header hold each of their fields.
pub proof fn law_fields_are_written_in_full(
    attribute: Attribute,
    subobject: Subobject,
    data: Seq<u8>,
)
    ensures
        attribute_line(attribute) == "    attr id="@ + padded_right(
            decimal(attribute.id as nat),
            3,
            ' ',
        ) + " eltype="@ + ("0x"@ + padded_left(hexadecimal(attribute.eltype as nat), 2, '0'))
            + " -> "@ + value_text(attribute.value),
        subobject_line(subobject) == "  subobject obj_type="@ + decimal(subobject.obj_type as nat)
            + " flags="@ + ("0x"@ + padded_left(hexadecimal(subobject.flags as nat), 4, '0'))
            + " id="@ + decimal(subobject.id as nat) + " ("@ + decimal(subobject.attributes.len())
            + " attributes)"@,
        header_line(data) == "  object header: fill1="@ + decimal(u32_at(data, 0) as nat)
            + " size="@ + decimal(u32_at(data, 4) as nat) + " (buffer is "@ + decimal(data.len())
            + " bytes)"@,
{
}

/// Every subobject is described by a line of its own, followed by a line for each
/// of its attributes, in order.
pub proof fn law_every_attribute_has_its_line(subobjects: Seq<Subobject>, subobject: Subobject)
    ensures
        all_subobject_lines(Seq::empty()) == Seq::<Seq<char>>::empty(),
        all_subobject_lines(subobjects.push(subobject)) == all_subobject_lines(subobjects)
            + subobject_lines(subobject),
        subobject_lines(subobject).len() == 1 + subobject.attributes.len(),
        subobject_lines(subobject)[0] == subobject_line(subobject),
        forall|i: int|
            0 <= i < subobject.attributes.len() ==> subobject_lines(subobject)[i + 1]
                == attribute_line(#[trigger] subobject.attributes[i]),
{
    assert(subobjects.push(subobject).drop_last() =~= subobjects);
}

/// An object is described by its header, where there is room for one, and by all
/// its subobjects; where there are none, that is said.
pub proof fn law_object_is_described_in_full(data: Seq<u8>)
    ensures
        data.len() < 8 ==> object_lines(data) == seq!["  (no subobjects parsed)"@],
        data.len() >= 8 && parsed_object(data).len() == 0 ==> object_lines(data) == seq![
            header_line(data),
            "  (no subobjects parsed)"@,
        ],
        data.len() >= 8 && parsed_object(data).len() > 0 ==> object_lines(data) == seq![
            header_line(data),
        ] + all_subobject_lines(parsed_object(data)),
{
    if data.len() < 8 {
        crate::layout::law_subobjects_lie_one_after_the_other(data);
        assert(object_lines(data) =~= seq!["  (no subobjects parsed)"@]);
    } else if parsed_object(data).len() == 0 {
        assert(object_lines(data) =~= seq![header_line(data), "  (no subobjects parsed)"@]);
    }
}

fn write_attribute(attribute: &MFSAttribute) -> (line: String)
    ensures
        line@ == attribute_line(attribute@),
{
    let mut line = "    attr id=".to_owned();
    line.append(&pad_right(&to_decimal(attribute.id as u64), 3, ' '));
    line.append(" eltype=");
    line.append(&write_hex(attribute.eltype as u64, 2));
    line.append(" -> ");
    line.append(&summarize_value(&attribute.value));
    line
}

fn write_subobject(subobject: &MFSSubobject) -> (line: String)
    ensures
        line@ == subobject_line(subobject@),
{
    let mut line = "  subobject obj_type=".to_owned();
    line.append(&to_decimal(subobject.obj_type as u64));
    line.append(" flags=");
    line.append(&write_hex(subobject.flags as u64, 4));
    line.append(" id=");
    line.append(&to_decimal(subobject.id as u64));
    line.append(" (");
    line.append(&to_decimal(subobject.attributes.len() as u64));
    line.append(" attributes)");
    assert(subobject@.attributes.len() == subobject.attributes@.len());
    line
}

fn write_header(data: &[u8]) -> (line: String)
    requires
        data@.len() >= 8,
    ensures
        line@ == header_line(data@),
{
    let mut line = "  object header: fill1=".to_owned();
    line.append(&to_decimal(be_u32(data, 0) as u64));
    line.append(" size=");
    line.append(&to_decimal(be_u32(data, 4) as u64));
    line.append(" (buffer is ");
    line.append(&to_decimal(data.len() as u64));
    line.append(" bytes)");
    line
}

fn append_subobject(lines: &mut Vec<String>, subobject: &MFSSubobject)
    ensures
        texts(final(lines)@) == texts(old(lines)@) + subobject_lines(subobject@),
{
    let ghost before = texts(lines@);
    let ghost expected = subobject_lines(subobject@);
    let line = write_subobject(subobject);
    lines.push(line);
    let mut i: usize = 0;
    proof {
        assert(texts(lines@) =~= before.push(line@));
        assert(texts(lines@) =~= before + expected.take(1));
    }
    while i < subobject.attributes.len()
        invariant
            i <= subobject.attributes@.len(),
            expected == subobject_lines(subobject@),
            expected.len() == subobject.attributes@.len() + 1,
            texts(lines@) == before + expected.take(i + 1),
        decreases subobject.attributes@.len() - i,
    {
        let ghost had = texts(lines@);
        let line = write_attribute(&subobject.attributes[i]);
        lines.push(line);
        i += 1;
        proof {
            assert(subobject@.attributes[i - 1] == subobject.attributes@[i - 1]@);
            assert(expected[i as int] == line@);
            assert(texts(lines@) =~= had.push(line@));
            assert(texts(lines@) =~= before + expected.take(i + 1));
        }
    }
    assert(expected.take(i + 1) =~= expected);
}

/// Describes the object in `data`: its header and all that could be parsed.
pub fn describe_object(data: &[u8]) -> (lines: Vec<String>)
    ensures
        texts(lines@) == object_lines(data@),
{
    let mut lines: Vec<String> = Vec::new();
    assert(texts(lines@) =~= Seq::<Seq<char>>::empty());
    if data.len() >= 8 {
        let line = write_header(data);
        lines.push(line);
        assert(texts(lines@) =~= seq![header_line(data@)]);
    }
    let ghost header = texts(lines@);
    let object = MFSObject::parse(data);
    let ghost parsed = parsed_object(data@);
    assert(parsed.len() == object.subobjects@.len());
    if object.subobjects.len() == 0 {
        let line = "  (no subobjects parsed)".to_owned();
        lines.push(line);
        assert(texts(lines@) =~= header.push(line@));
        assert(texts(lines@) =~= object_lines(data@));
        return lines;
    }
    let mut i: usize = 0;
    assert(texts(lines@) =~= header + all_subobject_lines(parsed.take(0)));
    while i < object.subobjects.len()
        invariant
            i <= object.subobjects@.len(),
            parsed == subobject_views(object.subobjects@),
            texts(lines@) == header + all_subobject_lines(parsed.take(i as int)),
        decreases object.subobjects@.len() - i,
    {
        append_subobject(&mut lines, &object.subobjects[i]);
        i += 1;
        proof {
            let taken = parsed.take(i as int);
            assert(taken.drop_last() =~= parsed.take(i - 1));
            assert(taken.last() == object.subobjects@[i - 1]@);
            assert(texts(lines@) =~= header + all_subobject_lines(taken));
        }
    }
    assert(parsed.take(i as int) =~= parsed);
    lines
}

/// The lines that show the data of an object asked for.
pub open spec fn dump_report(data: Seq<u8>, max_bytes: int) -> Seq<Seq<char>> {
    dump_lines(data, max_bytes) + object_lines(data)
}

/// Shows the data of an object: a dump of at most `max_bytes`, and what could be
/// parsed.
pub fn dump_object(data: &[u8], max_bytes: usize) -> (lines: Vec<String>)
    ensures
        texts(lines@) == dump_report(data@, max_bytes as int),
        texts(lines@) == dump_lines(data@, max_bytes as int) + object_lines(data@),
{
    let mut lines = hex_dump(data, max_bytes);
    let mut more = describe_object(data);
    let ghost dump = lines@;
    let ghost parsed = more@;
    lines.append(&mut more);
    assert(lines@ =~= dump + parsed);
    assert(texts(lines@) =~= texts(dump) + texts(parsed));
    lines
}

/// What an inode says of itself.
pub struct InodeSummary {
    pub fsid: u32,
    pub inode: u32,
    pub kind: String,
    pub size: u32,
    pub flags: u32,
    pub numblocks: u32,
}

/// The line for an inode.
pub fn inode_line(inode: &InodeSummary) -> (line: String)
    ensures
        line@ == "fsid="@ + decimal(inode.fsid as nat) + " inode="@ + decimal(inode.inode as nat)
            + " type="@ + inode.kind@ + " size="@ + decimal(inode.size as nat) + " flags="@
            + hex_number(inode.flags as nat, 0) + " numblocks="@ + decimal(inode.numblocks as nat),
        line@ == "fsid="@ + decimal(inode.fsid as nat) + " inode="@ + decimal(inode.inode as nat)
            + " type="@ + inode.kind@ + " size="@ + decimal(inode.size as nat) + " flags="@ + ("0x"@
            + hexadecimal(inode.flags as nat)) + " numblocks="@ + decimal(inode.numblocks as nat),
{
    proof {
        law_numbers_are_marked_as_hexadecimal(inode.flags as nat, 0);
    }
    let mut line = "fsid=".to_owned();
    line.append(&to_decimal(inode.fsid as u64));
    line.append(" inode=");
    line.append(&to_decimal(inode.inode as u64));
    line.append(" type=");
    line.append(&inode.kind);
    line.append(" size=");
    line.append(&to_decimal(inode.size as u64));
    line.append(" flags=");
    line.append(&write_hex(inode.flags as u64, 0));
    line.append(" numblocks=");
    line.append(&to_decimal(inode.numblocks as u64));
    line
}

/// What a search has reported, and how many objects it was offered.
pub struct SearchReport {
    pub reports: Seq<Seq<Seq<char>>>,
    pub offered: nat,
}

/// A search over the data of all the objects, in order. Once there are enough
/// matches nothing more is offered.
pub open spec fn searched(objects: Seq<Seq<u8>>, needle: Seq<u8>) -> SearchReport
    decreases objects.len(),
{
    if objects.len() == 0 {
        SearchReport { reports: Seq::empty(), offered: 0 }
    } else {
        let before = searched(objects.drop_last(), needle);
        if before.reports.len() >= MAX_MATCHES {
            before
        } else {
            SearchReport {
                reports: if occurs_in(objects.last(), needle) {
                    before.reports.push(dump_report(objects.last(), MATCH_DUMP_BYTES as int))
                } else {
                    before.reports
                },
                offered: before.offered + 1,
            }
        }
    }
}

/// The objects whose data holds the needle, in order.
pub open spec fn matching(objects: Seq<Seq<u8>>, needle: Seq<u8>) -> Seq<Seq<u8>> {
    objects.filter(|data: Seq<u8>| occurs_in(data, needle))
}

/// The first of the objects whose data holds the needle, as many as a search
/// reports.
pub open spec fn first_matching(objects: Seq<Seq<u8>>, needle: Seq<u8>) -> Seq<Seq<u8>> {
    let all = matching(objects, needle);
    all.take(at_most(all.len() as int, MAX_MATCHES as int))
}

/// A search for objects whose data contains a string.
pub struct NeedleSearch {
    pub needle: Vec<u8>,
    pub scanned: u64,
    pub matches: u32,
}

impl NeedleSearch {
    /// Whether these are the objects that the search has been offered.
    pub open spec fn was_offered(self, objects: Seq<Seq<u8>>) -> bool {
        &&& searched(objects, self.needle@).offered == objects.len()
        &&& searched(objects, self.needle@).reports.len() == self.matches
    }

    /// A search for `needle`.
    pub fn new(needle: &str) -> (search: NeedleSearch)
        ensures
            search.needle@ == encode_utf8(needle@),
            search.scanned == 0,
            search.matches == 0,
            search.was_offered(Seq::empty()),
    {
        let bytes = needle.as_bytes();
        let mut copy: Vec<u8> = Vec::new();
        copy.extend_from_slice(bytes);
        assert(copy@ =~= bytes@);
        NeedleSearch { needle: copy, scanned: 0, matches: 0 }
    }

    /// Counts an inode, and tells whether a progress report is due.
    pub fn count_inode(&mut self) -> (due: bool)
        requires
            old(self).scanned < u64::MAX,
        ensures
            final(self).scanned == old(self).scanned + 1,
            due == (final(self).scanned % PROGRESS_INTERVAL == 0),
            due == (final(self).scanned % 50_000 == 0),
            final(self).needle == old(self).needle,
            final(self).matches == old(self).matches,
    {
        self.scanned = self.scanned + 1;
        progress_due(self.scanned)
    }

    /// Looks at the data of an object; gives what to show of it if it holds the
    /// needle, which is not empty.
    pub fn offer(&mut self, data: &[u8]) -> (report: Option<Vec<String>>)
        requires
            old(self).needle@.len() > 0,
            old(self).matches < MAX_MATCHES,
        ensures
            report is Some <==> occurs_in(data@, old(self).needle@),
            report is Some <==> exists|at: int|
                0 <= at <= data@.len() - old(self).needle@.len() && #[trigger] data@.subrange(
                    at,
                    at + old(self).needle@.len(),
                ) == old(self).needle@,
            report matches Some(lines) ==> texts(lines@) == dump_lines(data@, 1024) + object_lines(
                data@,
            ),
            report matches Some(lines) ==> texts(lines@) == dump_report(
                data@,
                MATCH_DUMP_BYTES as int,
            ),
            final(self).matches == old(self).matches + if report is Some {
                1int
            } else {
                0int
            },
            final(self).needle == old(self).needle,
            final(self).scanned == old(self).scanned,
            forall|objects: Seq<Seq<u8>>| #[trigger]
                old(self).was_offered(objects) ==> {
                    let before = searched(objects, old(self).needle@).reports;
                    &&& final(self).was_offered(objects.push(data@))
                    &&& searched(objects.push(data@), old(self).needle@).reports == (match report {
                        Some(lines) => before.push(texts(lines@)),
                        None => before,
                    })
                },
    {
        proof {
            assert forall|objects: Seq<Seq<u8>>|
                (#[trigger] objects.push(data@)).drop_last() == objects by {
                assert(objects.push(data@).drop_last() =~= objects);
            }
        }
        if !contains_bytes(data, &self.needle) {
            return None;
        }
        self.matches = self.matches + 1;
        Some(dump_object(data, MATCH_DUMP_BYTES))
    }

    /// Whether enough matches have been found.
    pub fn is_done(&self) -> (done: bool)
        ensures
            done == (self.matches >= MAX_MATCHES),
            done == (self.matches >= 5),
    {
        self.matches >= MAX_MATCHES
    }
}

proof fn lemma_matching_grows(objects: Seq<Seq<u8>>, needle: Seq<u8>)
    requires
        objects.len() > 0,
    ensures
        matching(objects, needle) == if occurs_in(objects.last(), needle) {
            matching(objects.drop_last(), needle).push(objects.last())
        } else {
            matching(objects.drop_last(), needle)
        },
{
    assert(objects.drop_last().push(objects.last()) =~= objects);
    Seq::lemma_filter_push(
        objects.drop_last(),
        objects.last(),
        |data: Seq<u8>| occurs_in(data, needle),
    );
}

/// A search reports the first objects that hold the needle, five at most, in the
/// order in which they were offered, and no other.
pub proof fn law_search_reports_the_first_matches(objects: Seq<Seq<u8>>, needle: Seq<u8>)
    ensures
        searched(objects, needle).reports == first_matching(objects, needle).map_values(
            |data: Seq<u8>| dump_report(data, MATCH_DUMP_BYTES as int),
        ),
    decreases objects.len(),
{
    let show = |data: Seq<u8>| dump_report(data, MATCH_DUMP_BYTES as int);
    if objects.len() == 0 {
        reveal(Seq::filter);
        assert(searched(objects, needle).reports =~= first_matching(objects, needle).map_values(
            show,
        ));
    } else {
        let before = objects.drop_last();
        law_search_reports_the_first_matches(before, needle);
        lemma_matching_grows(objects, needle);
        assert(searched(objects, needle).reports =~= first_matching(objects, needle).map_values(
            show,
        ));
    }
}

/// A search is offered every object as long as fewer than five hold the needle,
/// and none behind the fifth that does.
pub proof fn law_search_stops_at_the_last_match(objects: Seq<Seq<u8>>, needle: Seq<u8>)
    ensures
        ({
            let end = searched(objects, needle).offered as int;
            let all = matching(objects, needle);
            &&& end <= objects.len()
            &&& all.len() < MAX_MATCHES ==> end == objects.len()
            &&& all.len() >= MAX_MATCHES ==> {
                &&& 0 < end
                &&& occurs_in(objects[end - 1], needle)
                &&& matching(objects.take(end), needle).len() == MAX_MATCHES
            }
        }),
    decreases objects.len(),
{
    let all = matching(objects, needle);
    if objects.len() == 0 {
        reveal(Seq::filter);
    } else {
        let before = objects.drop_last();
        let earlier = searched(before, needle);
        let end = searched(objects, needle).offered as int;
        law_search_stops_at_the_last_match(before, needle);
        law_search_reports_the_first_matches(before, needle);
        lemma_matching_grows(objects, needle);
        if earlier.reports.len() >= MAX_MATCHES {
            assert(objects.take(end) =~= before.take(end));
            assert(objects[end - 1] == before[end - 1]);
        } else {
            assert(objects.take(end) =~= objects);
        }
    }
}

/// What a search reports: as many of the matching objects as there are, but no
/// more than five, each with a dump of up to 1024 bytes and its description.
pub proof fn law_search_reports_five_at_most(objects: Seq<Seq<u8>>, needle: Seq<u8>)
    ensures
        ({
            let all = objects.filter(|data: Seq<u8>| occurs_in(data, needle));
            let reports = searched(objects, needle).reports;
            &&& all.len() <= 5 ==> reports.len() == all.len()
            &&& all.len() > 5 ==> reports.len() == 5
            &&& forall|k: int|
                0 <= k < reports.len() ==> #[trigger] reports[k] == dump_lines(all[k], 1024)
                    + object_lines(all[k])
        }),
{
    law_search_reports_the_first_matches(objects, needle);
}

spec fn sixteen_to(d: nat) -> nat
    decreases d,
{
    if d == 0 {
        1
    } else {
        16 * sixteen_to((d - 1) as nat)
    }
}

proof fn lemma_hexadecimal_len(n: nat, d: nat)
    requires
        0 < d,
        n < sixteen_to(d),
    ensures
        0 < hexadecimal(n).len() <= d,
    decreases d,
{
    reveal_with_fuel(sixteen_to, 2);
    if n >= 16 {
        lemma_hexadecimal_len(n / 16, (d - 1) as nat);
    }
}

proof fn lemma_separated_columns(items: Seq<Seq<char>>, between: Seq<char>, k: int)
    requires
        0 <= k < items.len(),
        between.len() == 1,
        forall|i: int| 0 <= i < items.len() ==> (#[trigger] items[i]).len() == 2,
    ensures
        separated(items, between).len() == 3 * items.len() - 1,
        separated(items, between).subrange(3 * k, 3 * k + 2) == items[k],
    decreases items.len(),
{
    let whole = separated(items, between);
    if items.len() == 1 {
        assert(whole.subrange(0, 2) =~= items[0]);
    } else {
        let fewer = items.drop_last();
        let n = fewer.len() as int;
        assert forall|i: int| 0 <= i < n implies (#[trigger] fewer[i]).len() == 2 by {
            assert(fewer[i] == items[i]);
        }
        lemma_separated_columns(fewer, between, if k < n { k } else { 0 });
        if k < n {
            assert(whole.subrange(3 * k, 3 * k + 2) =~= separated(fewer, between).subrange(
                3 * k,
                3 * k + 2,
            ));
        } else {
            assert(whole.subrange(3 * k, 3 * k + 2) =~= items[k]);
        }
    }
}

/// A dump shows every byte, in hexadecimal and as a character, in the columns
/// that its place in the line gives.
pub proof fn law_dump_shows_every_byte(data: Seq<u8>, i: int)
    requires
        0 <= i < data.len(),
        data.len() <= 0x1_0000_0000,
    ensures
        i / 16 < dump_of(data).len(),
        dump_of(data)[i / 16].subrange(12 + 3 * (i % 16), 14 + 3 * (i % 16)) == hex_byte(data[i]),
        dump_of(data)[i / 16][61 + i % 16] == shown(data[i]),
{
    let k = i / 16;
    let c = i % 16;
    let bytes = dump_bytes(data, k);
    let items = bytes.map_values(|b: u8| hex_byte(b));
    let line = dump_line((16 * k) as nat, bytes);
    assert(bytes[c] == data[i]);
    assert forall|j: int| 0 <= j < items.len() implies (#[trigger] items[j]).len() == 2 by {
        reveal_with_fuel(sixteen_to, 3);
        lemma_hexadecimal_len(bytes[j] as nat, 2);
    }
    reveal_strlit("  ");
    reveal_strlit(" ");
    lemma_separated_columns(items, " "@, c);
    assert(sixteen_to(8) == 0x1_0000_0000) by {
        reveal_with_fuel(sixteen_to, 9);
    }
    lemma_hexadecimal_len((16 * k) as nat, 8);
    assert(padded_left(hexadecimal((16 * k) as nat), 8, '0').len() == 8);
    let hex = separated(items, " "@);
    let column = padded_right(hex, HEX_COLUMN as nat, ' ');
    assert(column.len() == HEX_COLUMN);
    assert(line.subrange(12 + 3 * c, 14 + 3 * c) =~= hex.subrange(3 * c, 3 * c + 2));
    assert(line[61 + c] == bytes.map_values(|b: u8| shown(b))[c]);
}

proof fn lemma_hex_byte(byte: u8)
    ensures
        hex_byte(byte).len() == 2,
        hex_byte(byte)[0] == digit((byte / 16) as int),
        hex_byte(byte)[1] == digit((byte % 16) as int),
{
    reveal_with_fuel(hexadecimal, 2);
    if byte < 16 {
        assert(hexadecimal(byte as nat) =~= seq![digit(byte as int)]);
        assert(hex_byte(byte)[0] == '0');
        assert(digit(0) == '0');
    } else {
        assert(hexadecimal(byte as nat) =~= seq![
            digit((byte / 16) as int),
            digit((byte % 16) as int),
        ]);
    }
}

/// A byte is shown as its high and its low half, each a digit or a letter from `a`
/// to `f`, and as the character it is; a dot stands for what is not printable.
pub proof fn law_dump_digits_are_those_of_the_byte(data: Seq<u8>, i: int)
    requires
        0 <= i < data.len(),
        data.len() <= 0x1_0000_0000,
    ensures
        dump_of(data)[i / 16][12 + 3 * (i % 16)] == if data[i] / 16 < 10 {
            (48 + data[i] / 16) as char
        } else {
            (87 + data[i] / 16) as char
        },
        dump_of(data)[i / 16][13 + 3 * (i % 16)] == if data[i] % 16 < 10 {
            (48 + data[i] % 16) as char
        } else {
            (87 + data[i] % 16) as char
        },
        32 <= data[i] <= 126 ==> dump_of(data)[i / 16][61 + i % 16] == data[i] as char,
        !(32 <= data[i] <= 126) ==> dump_of(data)[i / 16][61 + i % 16] == '.',
{
    law_dump_shows_every_byte(data, i);
    lemma_hex_byte(data[i]);
    law_dump_lines_are_laid_out(data, i / 16, 0);
    let line = dump_of(data)[i / 16];
    let pair = line.subrange(12 + 3 * (i % 16), 14 + 3 * (i % 16));
    assert(pair[0] == line[12 + 3 * (i % 16)] && pair[1] == line[13 + 3 * (i % 16)]);
}

/// A dump has a line for every sixteen bytes and for what is left over. A line has
/// the offset of its first byte in eight hexadecimal digits from its third
/// character on, and blanks wherever no digit and no byte is shown.
pub proof fn law_dump_lines_are_laid_out(data: Seq<u8>, k: int, p: int)
    requires
        0 <= 16 * k < data.len() <= 0x1_0000_0000,
    ensures
        16 * (dump_of(data).len() - 1) < data.len() <= 16 * dump_of(data).len(),
        ({
            let line = dump_of(data)[k];
            let count = if data.len() - 16 * k < 16 {
                data.len() - 16 * k
            } else {
                16
            };
            &&& line.len() == 61 + count
            &&& line.subrange(2, 10) == padded_left(hexadecimal((16 * k) as nat), 8, '0')
            &&& 0 <= p < 2 || 10 <= p < 12 || 59 <= p < 61 ==> line[p] == ' '
            &&& 12 <= p < 59 && ((p - 12) % 3 == 2 || (p - 12) / 3 >= count) ==> line[p] == ' '
        }),
{
    let bytes = dump_bytes(data, k);
    let items = bytes.map_values(|b: u8| hex_byte(b));
    let line = dump_line((16 * k) as nat, bytes);
    assert(dump_of(data)[k] == line);
    reveal_strlit("  ");
    reveal_strlit(" ");
    assert forall|j: int| 0 <= j < items.len() implies (#[trigger] items[j]).len() == 2 by {
        reveal_with_fuel(sixteen_to, 3);
        lemma_hexadecimal_len(bytes[j] as nat, 2);
    }
    assert(sixteen_to(8) == 0x1_0000_0000) by {
        reveal_with_fuel(sixteen_to, 9);
    }
    lemma_hexadecimal_len((16 * k) as nat, 8);
    let address = padded_left(hexadecimal((16 * k) as nat), 8, '0');
    assert(address.len() == 8);
    let hex = separated(items, " "@);
    lemma_separated_columns(items, " "@, 0);
    let column = padded_right(hex, HEX_COLUMN as nat, ' ');
    assert(column.len() == HEX_COLUMN);
    assert(line.subrange(2, 10) =~= address);
    if 12 <= p < 59 {
        assert(line[p] == column[p - 12]);
        if p - 12 >= hex.len() {
            assert(column[p - 12] == ' ');
        } else if (p - 12) % 3 == 2 {
            lemma_separated_gaps(items, " "@, (p - 12) / 3);
        }
    }
}

/// A line of a dump, however far into the data, has its offset in front, in eight
/// hexadecimal digits or more, and is otherwise the line of a dump of its own
/// bytes.
pub proof fn law_dump_line_is_that_of_its_bytes(data: Seq<u8>, k: int)
    requires
        0 <= 16 * k < data.len(),
    ensures
        ({
            let end = if data.len() - 16 * k < 16 {
                data.len() as int
            } else {
                16 * k + 16
            };
            let alone = dump_of(data.subrange(16 * k, end));
            &&& dump_of(data).len() == (data.len() + 15) / 16
            &&& alone.len() == 1
            &&& dump_of(data)[k] == "  "@ + padded_left(hexadecimal((16 * k) as nat), 8, '0')
                + "  "@ + alone[0].skip(12)
        }),
{
    let bytes = dump_bytes(data, k);
    let alone = dump_of(bytes);
    assert(dump_bytes(bytes, 0) =~= bytes);
    reveal_strlit("  ");
    assert(hexadecimal(0) =~= seq![digit(0)]);
    let front = "  "@ + padded_left(hexadecimal((16 * k) as nat), 8, '0') + "  "@;
    assert(dump_of(data)[k] =~= front + alone[0].skip(12));
}

proof fn lemma_separated_gaps(items: Seq<Seq<char>>, between: Seq<char>, k: int)
    requires
        0 <= k < items.len() - 1,
        between.len() == 1,
        forall|i: int| 0 <= i < items.len() ==> (#[trigger] items[i]).len() == 2,
    ensures
        3 * k + 2 < separated(items, between).len(),
        separated(items, between)[3 * k + 2] == between[0],
    decreases items.len(),
{
    let fewer = items.drop_last();
    assert forall|i: int| 0 <= i < fewer.len() implies (#[trigger] fewer[i]).len() == 2 by {
        assert(fewer[i] == items[i]);
    }
    lemma_separated_columns(fewer, between, 0);
    if k < fewer.len() - 1 {
        lemma_separated_gaps(fewer, between, k);
    }
}

} // verus!
