use ovit_tools::obj_type;
use ovit_tools::object::{
    be_u16, be_u32, decode_value, parse_attributes, MFSAttrValue, MFSObject,
};

const TYPE_INT: u8 = 0 << 6;
const TYPE_STRING: u8 = 1 << 6;
const TYPE_OBJECT: u8 = 2 << 6;
const TYPE_FILE: u8 = 3 << 6;

fn push_u16(buf: &mut Vec<u8>, value: u16) {
    buf.extend_from_slice(&value.to_be_bytes());
}

fn push_u32(buf: &mut Vec<u8>, value: u32) {
    buf.extend_from_slice(&value.to_be_bytes());
}

fn attribute(eltype: u8, id: u8, data: &[u8]) -> Vec<u8> {
    let mut attr = Vec::new();
    attr.push(eltype);
    attr.push(id);
    push_u16(&mut attr, (4 + data.len()) as u16);
    attr.extend_from_slice(data);
    while attr.len() % 4 != 0 {
        attr.push(0);
    }
    attr
}

fn subobject(obj_type: u16, id: u32, attributes: &[u8]) -> Vec<u8> {
    let mut subobj = Vec::new();
    push_u16(&mut subobj, (16 + attributes.len()) as u16); // len
    push_u16(&mut subobj, 0); // len1
    push_u16(&mut subobj, obj_type);
    push_u16(&mut subobj, 0); // flags
    push_u16(&mut subobj, 0); // fill[0]
    push_u16(&mut subobj, 0); // fill[1]
    push_u32(&mut subobj, id);
    subobj.extend_from_slice(attributes);
    subobj
}

fn object(subobjects: &[u8]) -> Vec<u8> {
    let mut buf = Vec::new();
    push_u32(&mut buf, 0); // fill1
    push_u32(&mut buf, (8 + subobjects.len()) as u32); // size
    buf.extend_from_slice(subobjects);
    buf
}

#[test]
fn parses_program_string_and_int_attributes() {
    let mut attrs = Vec::new();
    attrs.extend(attribute(TYPE_STRING, 17, b"Star Trek\0")); // Title
    attrs.extend(attribute(TYPE_INT, 49, &19_000u32.to_be_bytes())); // OriginalAirDate

    let buf = object(&subobject(obj_type::PROGRAM, 42, &attrs));
    let parsed = MFSObject::parse(&buf);

    let program = parsed
        .first_of_type(obj_type::PROGRAM)
        .expect("program subobject present");
    assert_eq!(program.id, 42);
    assert_eq!(program.string(17).as_deref(), Some("Star Trek"));
    assert_eq!(program.integer(49), Some(19_000));
}

#[test]
fn parses_object_references_across_subobjects() {
    // A Recording object also carries an inlined Showing subobject that
    // references the Program by fsid, exactly the shape the recordings
    // command relies on.
    let recording = subobject(obj_type::RECORDING, 1, &attribute(TYPE_INT, 54, &123u32.to_be_bytes()));

    let mut program_ref = Vec::new();
    push_u32(&mut program_ref, 9999); // fsid
    push_u32(&mut program_ref, 0); // subobj
    let showing = subobject(obj_type::SHOWING, 2, &attribute(TYPE_OBJECT, 16, &program_ref));

    let mut subobjects = recording;
    subobjects.extend(showing);
    let parsed = MFSObject::parse(&object(&subobjects));

    assert!(parsed.has_type(obj_type::RECORDING));
    let showing = parsed
        .first_of_type(obj_type::SHOWING)
        .expect("showing subobject present");
    assert_eq!(showing.object_fsid(16), Some(9999));
}

#[test]
fn tolerates_truncated_and_zero_length_input() {
    // Must not panic or loop forever on garbage.
    assert!(MFSObject::parse(&[]).subobjects.is_empty());
    assert!(MFSObject::parse(&[0, 0, 0, 0]).subobjects.is_empty());
    assert!(MFSObject::parse(&[0xFF; 20]).subobjects.is_empty());
}

#[test]
fn integers_are_big_endian() {
    let buf = [0x12, 0x34, 0x56, 0x78, 0x9A];
    assert_eq!(be_u16(&buf, 0), 0x1234);
    assert_eq!(be_u16(&buf, 3), 0x789A);
    assert_eq!(be_u32(&buf, 0), 0x12345678);
    assert_eq!(be_u32(&buf, 1), 0x3456789A);
}

#[test]
fn values_follow_the_element_type() {
    let data = [0, 0, 0, 5, 0, 0, 1, 0, 9];
    assert!(matches!(decode_value(TYPE_INT | 7, &data), MFSAttrValue::Int(v) if v == [5, 256]));
    assert!(matches!(decode_value(TYPE_FILE, &data), MFSAttrValue::File(v) if v == [5, 256]));
    assert!(matches!(decode_value(TYPE_OBJECT, &data), MFSAttrValue::Object(v) if v == [(5, 256)]));
    assert!(matches!(decode_value(TYPE_STRING, b"\0one\0\0two\0"), MFSAttrValue::Str(v) if v == ["one", "two"]));
    assert!(matches!(decode_value(TYPE_STRING, b"unterminated"), MFSAttrValue::Str(v) if v == ["unterminated"]));
    assert!(matches!(decode_value(TYPE_STRING, b"\0\0"), MFSAttrValue::Str(v) if v.is_empty()));
}

#[test]
fn invalid_utf8_is_repaired() {
    match decode_value(TYPE_STRING, b"caf\xc3\xa9\0bad\xffbyte\0") {
        MFSAttrValue::Str(v) => assert_eq!(v, ["caf\u{e9}", "bad\u{fffd}byte"]),
        other => panic!("{:?}", other),
    }
}

#[test]
fn attributes_are_aligned_and_may_be_cut_short() {
    let mut buf = attribute(TYPE_STRING, 1, b"abcde\0");
    assert_eq!(buf.len(), 12);
    buf.extend(attribute(TYPE_INT, 2, &7u32.to_be_bytes()));
    let attrs = parse_attributes(&buf);
    assert_eq!(attrs.len(), 2);
    assert_eq!((attrs[1].id, attrs[1].eltype), (2, TYPE_INT));

    // The second attribute says eight bytes, two of its value are missing.
    let attrs = parse_attributes(&buf[..18]);
    assert_eq!(attrs.len(), 2);
    assert!(matches!(&attrs[1].value, MFSAttrValue::Int(v) if v.is_empty()));

    // A length below the header ends the list.
    let mut bad = attribute(TYPE_INT, 3, &1u32.to_be_bytes());
    bad.extend_from_slice(&[0, 9, 0, 3, 0, 0, 0, 0]);
    assert_eq!(parse_attributes(&bad).len(), 1);
    assert!(parse_attributes(&[1, 2, 0]).is_empty());
}

#[test]
fn good_subobjects_survive_what_follows() {
    let mut body = subobject(obj_type::PROGRAM, 1, &attribute(TYPE_STRING, 17, b"A\0"));
    body.extend(subobject(obj_type::STATION, 2, &[]));
    body.extend_from_slice(&[0xFF; 40]);
    let parsed = MFSObject::parse(&object(&body));
    assert_eq!(parsed.subobjects.len(), 2);
    assert_eq!(parsed.subobjects[1].id, 2);
    assert_eq!(parsed.subobjects[1].obj_type, obj_type::STATION);
}

#[test]
fn truncation_keeps_a_prefix() {
    let mut body = subobject(obj_type::PROGRAM, 1, &attribute(TYPE_STRING, 17, b"A\0"));
    body.extend(subobject(obj_type::SERIES, 2, &attribute(TYPE_INT, 3, &[0, 0, 0, 4])));
    let buf = object(&body);
    for n in 0..=buf.len() {
        let cut = MFSObject::parse(&buf[..n]);
        let expected = if n < 32 {
            0
        } else if n < buf.len() {
            1
        } else {
            2
        };
        assert_eq!(cut.subobjects.len(), expected, "{}", n);
        for (i, s) in cut.subobjects.iter().enumerate() {
            assert_eq!(s.id, i as u32 + 1);
        }
    }
}

#[test]
fn bytes_beyond_the_size_are_ignored() {
    let mut buf = object(&subobject(obj_type::PROGRAM, 1, &[]));
    buf.extend(subobject(obj_type::STATION, 2, &[]));
    assert_eq!(MFSObject::parse(&buf).subobjects.len(), 1);
    // A size below the header holds nothing.
    buf[7] = 7;
    assert!(MFSObject::parse(&buf).subobjects.is_empty());
}

#[test]
fn lookups_take_the_first_and_mind_the_type() {
    let mut attrs = attribute(TYPE_STRING, 5, b"x\0y\0");
    attrs.extend(attribute(TYPE_INT, 5, &[0, 0, 0, 1]));
    attrs.extend(attribute(TYPE_FILE, 6, &[0, 0, 0, 9, 0, 0, 0, 8]));
    attrs.extend(attribute(TYPE_STRING, 7, b"\0"));
    attrs.extend(attribute(TYPE_OBJECT, 8, &[]));
    let mut body = subobject(obj_type::SHOWING, 1, &attrs);
    body.extend(subobject(obj_type::SHOWING, 2, &[]));
    let parsed = MFSObject::parse(&object(&body));
    let s = parsed.first_of_type(obj_type::SHOWING).unwrap();
    assert_eq!(s.id, 1);
    assert_eq!(s.flags, 0);
    assert_eq!(s.strings(5), ["x", "y"]);
    assert_eq!(s.string(5).as_deref(), Some("x"));
    assert_eq!(s.integer(5), None);
    assert_eq!(s.integer(6), Some(9));
    assert_eq!(s.string(6), None);
    assert!(s.strings(6).is_empty());
    assert_eq!(s.string(7), None);
    assert_eq!(s.object_fsid(8), None);
    assert_eq!(s.object_fsid(5), None);
    assert!(s.attribute(9).is_none());
    assert!(s.strings(9).is_empty());
    assert_eq!(s.attribute(5).unwrap().eltype, TYPE_STRING);
    assert!(!parsed.has_type(obj_type::RECORDING));
    assert!(parsed.first_of_type(obj_type::RECORDING).is_none());
}

#[test]
fn no_string_is_empty_or_holds_a_nul() {
    for data in [&b"\xff\0\x80\x80\0ok\0"[..], b"\0\0\xc3\0\xa9\0", b"\xe2\x82", b"a\0\0b"] {
        match decode_value(TYPE_STRING, data) {
            MFSAttrValue::Str(v) => {
                assert!(!v.is_empty());
                assert!(v.iter().all(|s| !s.is_empty() && !s.contains('\0')), "{:?}", v);
            }
            other => panic!("{:?}", other),
        }
    }
}
