use ovit_tools::obj_type;
use ovit_tools::object::MFSObject;
use ovit_tools::recordings::{
    program_info, recording_from_object, sort_recordings, station_info, truncate, Catalog,
    ProgramInfo, Recording, StationInfo,
};

const TYPE_INT: u8 = 0;
const TYPE_STRING: u8 = 64;
const TYPE_OBJECT: u8 = 128;

fn attribute(eltype: u8, id: u8, data: &[u8]) -> Vec<u8> {
    let mut attr = vec![eltype, id];
    attr.extend_from_slice(&((4 + data.len()) as u16).to_be_bytes());
    attr.extend_from_slice(data);
    while attr.len() % 4 != 0 {
        attr.push(0);
    }
    attr
}

fn subobject(obj_type: u16, attributes: &[Vec<u8>]) -> Vec<u8> {
    let attributes = attributes.concat();
    let mut subobj = Vec::new();
    subobj.extend_from_slice(&((16 + attributes.len()) as u16).to_be_bytes());
    subobj.extend_from_slice(&[0, 0]);
    subobj.extend_from_slice(&obj_type.to_be_bytes());
    subobj.extend_from_slice(&[0; 10]);
    subobj.extend(attributes);
    subobj
}

fn object(subobjects: &[Vec<u8>]) -> MFSObject {
    let body = subobjects.concat();
    let mut buf = vec![0; 4];
    buf.extend_from_slice(&((8 + body.len()) as u32).to_be_bytes());
    buf.extend(body);
    MFSObject::parse(&buf)
}

fn number(id: u8, value: u32) -> Vec<u8> {
    attribute(TYPE_INT, id, &value.to_be_bytes())
}

fn string(id: u8, value: &str) -> Vec<u8> {
    attribute(TYPE_STRING, id, format!("{}\0", value).as_bytes())
}

fn reference(id: u8, fsid: u32) -> Vec<u8> {
    let mut data = fsid.to_be_bytes().to_vec();
    data.extend_from_slice(&[0, 0, 0, 7]);
    attribute(TYPE_OBJECT, id, &data)
}

fn recording(fsid: u32, date: Option<u32>, time: Option<u32>) -> Recording {
    Recording { fsid, program_fsid: None, station_fsid: None, date, time, stream_size: None }
}

#[test]
fn a_program_is_described_by_its_fields() {
    let info = program_info(&object(&[
        subobject(obj_type::SERIES, &[string(17, "Not this")]),
        subobject(
            obj_type::PROGRAM,
            &[
                string(17, "Nova"),
                string(29, "Black Holes"),
                string(19, "Long"),
                string(53, "Short"),
                number(49, 12345),
                number(22, 1999),
            ],
        ),
        subobject(obj_type::PROGRAM, &[string(17, "Second")]),
    ]))
    .unwrap();
    assert_eq!(info.title.as_deref(), Some("Nova"));
    assert_eq!(info.episode_title.as_deref(), Some("Black Holes"));
    assert_eq!(info.description.as_deref(), Some("Long"));
    assert_eq!(info.original_air_date, Some(12345));
    assert_eq!(info.movie_year, Some(1999));
}

#[test]
fn a_short_description_stands_in() {
    let info = program_info(&object(&[subobject(obj_type::PROGRAM, &[string(53, "Short")])])).unwrap();
    assert_eq!(info.description.as_deref(), Some("Short"));
    assert_eq!(info.title, None);
    assert!(program_info(&object(&[subobject(obj_type::STATION, &[])])).is_none());
}

#[test]
fn a_station_is_described_by_its_fields() {
    let info = station_info(&object(&[subobject(
        obj_type::STATION,
        &[string(17, "Public TV"), string(18, "WGBH")],
    )]))
    .unwrap();
    assert_eq!(info.name.as_deref(), Some("Public TV"));
    assert_eq!(info.call_sign.as_deref(), Some("WGBH"));
    assert!(station_info(&object(&[subobject(obj_type::PROGRAM, &[])])).is_none());
}

#[test]
fn a_recording_takes_its_showing_from_the_same_object() {
    let made = recording_from_object(
        77,
        &object(&[
            subobject(
                obj_type::SHOWING,
                &[reference(16, 1001), reference(17, 1002), number(18, 19000), number(19, 72000)],
            ),
            subobject(obj_type::RECORDING, &[number(54, 4096)]),
        ]),
    );
    assert_eq!(
        made,
        Some(Recording {
            fsid: 77,
            program_fsid: Some(1001),
            station_fsid: Some(1002),
            date: Some(19000),
            time: Some(72000),
            stream_size: Some(4096),
        })
    );
    let bare = recording_from_object(5, &object(&[subobject(obj_type::RECORDING, &[])]));
    assert_eq!(bare, Some(recording(5, None, None)));
    assert_eq!(recording_from_object(5, &object(&[subobject(obj_type::SHOWING, &[])])), None);
}

#[test]
fn long_text_is_cut() {
    assert_eq!(truncate("abcdef", 6), "abcdef");
    assert_eq!(truncate("abcdefg", 6), "abcde\u{2026}");
    assert_eq!(truncate("\u{e9}\u{e9}\u{e9}", 2), "\u{e9}\u{2026}");
    assert_eq!(truncate("ab", 1), "\u{2026}");
    assert_eq!(truncate("ab", 0), "\u{2026}");
    assert_eq!(truncate("", 0), "");
    assert_eq!(truncate(&truncate("abcdefg", 6), 6), truncate("abcdefg", 6));
}

#[test]
fn the_most_recent_recording_comes_first() {
    let items = vec![
        recording(4, None, None),
        recording(3, Some(10), Some(5)),
        recording(9, Some(11), None),
        recording(2, Some(10), Some(5)),
        recording(8, Some(11), Some(0)),
        recording(1, None, Some(9)),
        recording(6, Some(10), Some(6)),
    ];
    let mut expected = items.clone();
    expected.sort_by(|a, b| (b.date, b.time).cmp(&(a.date, a.time)).then(a.fsid.cmp(&b.fsid)));
    let sorted = sort_recordings(items);
    assert_eq!(sorted, expected);
    let fsids: Vec<u32> = sorted.iter().map(|r| r.fsid).collect();
    assert_eq!(fsids, [8, 9, 6, 2, 3, 1, 4]);
}

#[test]
fn equal_recordings_keep_their_order() {
    let mut a = recording(1, Some(1), None);
    let mut b = a;
    a.stream_size = Some(1);
    b.stream_size = Some(2);
    assert_eq!(sort_recordings(vec![a, b]), [a, b]);
    assert_eq!(sort_recordings(vec![b, a]), [b, a]);
    assert!(sort_recordings(Vec::new()).is_empty());
}

#[test]
fn a_row_gathers_what_is_known() {
    let mut catalog = Catalog::new();
    catalog.programs.insert(
        1001,
        ProgramInfo {
            title: Some("T".repeat(41)),
            episode_title: Some("E".repeat(30)),
            description: Some("D".repeat(61)),
            original_air_date: Some(12345),
            movie_year: None,
        },
    );
    catalog.stations.insert(
        1002,
        StationInfo { call_sign: None, name: Some("Public TV".to_string()) },
    );
    let known = Recording {
        fsid: 7,
        program_fsid: Some(1001),
        station_fsid: Some(1002),
        date: Some(19000),
        time: Some(72000),
        stream_size: None,
    };
    let row = catalog.row(&known);
    assert_eq!(row.fsid, 7);
    assert_eq!(row.title, format!("{}\u{2026}", "T".repeat(39)));
    assert_eq!(row.episode, "E".repeat(30));
    assert_eq!(row.recorded, "2022-01-08 20:00");
    assert_eq!(row.channel, "Public TV");
    assert_eq!(row.original_air_date, "2003-10-20");
    assert_eq!(row.description, format!("{}\u{2026}", "D".repeat(59)));

    catalog.stations.get_mut(&1002).unwrap().call_sign = Some("WGBH".to_string());
    assert_eq!(catalog.row(&known).channel, "WGBH");

    // A reference that leads nowhere leaves everything unknown.
    let lost = Recording { program_fsid: Some(5), station_fsid: Some(6), ..known };
    let row = catalog.row(&lost);
    assert_eq!(row.title, "<unknown>");
    assert_eq!(row.episode, "");
    assert_eq!(row.channel, "");
    assert_eq!(row.original_air_date, "");
    assert_eq!(row.description, "");
}

#[test]
fn rows_are_listed_in_order() {
    let mut catalog = Catalog::new();
    assert!(catalog.rows().is_empty());
    catalog.recordings.push(recording(1, Some(1), None));
    catalog.recordings.push(recording(2, Some(3), None));
    catalog.recordings.push(recording(3, Some(2), None));
    let fsids: Vec<u32> = catalog.rows().iter().map(|r| r.fsid).collect();
    assert_eq!(fsids, [2, 3, 1]);
    assert_eq!(catalog.recordings.len(), 3);
}

#[test]
fn nothing_is_known_by_default() {
    let program = ProgramInfo::default();
    assert!(program.title.is_none() && program.description.is_none());
    assert!(program.movie_year.is_none());
    let station = StationInfo::default();
    assert!(station.call_sign.is_none() && station.name.is_none());
}
