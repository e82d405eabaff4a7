use ovit_tools::obj_type;
use ovit_tools::scan::{
    is_candidate, is_object_sized, progress_due, type_line, Scan, TypeCount, MAX_OBJECT_SIZE,
};

const TYPE_INT: u8 = 0;
const TYPE_STRING: u8 = 64;

fn attribute(eltype: u8, id: u8, data: &[u8]) -> Vec<u8> {
    let mut attr = vec![eltype, id];
    attr.extend_from_slice(&((4 + data.len()) as u16).to_be_bytes());
    attr.extend_from_slice(data);
    while attr.len() % 4 != 0 {
        attr.push(0);
    }
    attr
}

fn subobject(obj_type: u16, attributes: &[u8]) -> Vec<u8> {
    let mut subobj = Vec::new();
    subobj.extend_from_slice(&((16 + attributes.len()) as u16).to_be_bytes());
    subobj.extend_from_slice(&[0, 0]);
    subobj.extend_from_slice(&obj_type.to_be_bytes());
    subobj.extend_from_slice(&[0; 10]);
    subobj.extend_from_slice(attributes);
    subobj
}

fn object(subobjects: &[Vec<u8>]) -> Vec<u8> {
    let body = subobjects.concat();
    let mut buf = vec![0; 4];
    buf.extend_from_slice(&((8 + body.len()) as u32).to_be_bytes());
    buf.extend(body);
    buf
}

#[test]
fn only_small_database_inodes_are_read() {
    assert_eq!(MAX_OBJECT_SIZE, 1 << 20);
    assert!(is_candidate(1, true, 1));
    assert!(is_candidate(1, true, 1 << 20));
    assert!(!is_candidate(0, true, 100));
    assert!(!is_candidate(1, false, 100));
    assert!(!is_candidate(1, true, 0));
    assert!(!is_candidate(1, true, (1 << 20) + 1));
    assert!(is_object_sized(1, 1 << 20));
    assert!(!is_object_sized(0, 5));
    assert!(!is_object_sized(1, 0));
    assert!(!is_object_sized(1, (1 << 20) + 1));
}

#[test]
fn progress_is_reported_now_and_then() {
    assert!(progress_due(50_000));
    assert!(progress_due(100_000));
    assert!(!progress_due(49_999));
    let mut scan = Scan::new();
    scan.scanned = 49_998;
    assert!(!scan.count_inode());
    assert!(scan.count_inode());
    assert!(!scan.count_inode());
    assert_eq!(scan.scanned, 50_001);
}

#[test]
fn objects_are_collected_by_what_they_describe() {
    let mut scan = Scan::new();
    scan.absorb(10, &object(&[subobject(obj_type::PROGRAM, &attribute(TYPE_STRING, 17, b"Nova\0"))]));
    scan.absorb(11, &object(&[subobject(obj_type::STATION, &attribute(TYPE_STRING, 18, b"WGBH\0"))]));
    scan.absorb(12, &object(&[
        subobject(obj_type::RECORDING, &attribute(TYPE_INT, 54, &[0, 0, 0, 9])),
        subobject(obj_type::SHOWING, &attribute(TYPE_INT, 18, &[0, 0, 0, 3])),
    ]));
    scan.absorb(13, &object(&[]));
    assert_eq!(scan.db_inodes_read, 4);
    assert_eq!(scan.objects_with_subobjects, 3);
    assert_eq!(scan.catalog.programs[&10].title.as_deref(), Some("Nova"));
    assert_eq!(scan.catalog.stations[&11].call_sign.as_deref(), Some("WGBH"));
    assert_eq!(scan.catalog.recordings.len(), 1);
    assert_eq!(scan.catalog.recordings[0].fsid, 12);
    assert_eq!(scan.catalog.recordings[0].date, Some(3));
    assert_eq!(scan.catalog.recordings[0].stream_size, Some(9));
    assert_eq!(scan.type_histogram.len(), 4);
    assert!(scan.type_histogram.values().all(|count| *count == 1));
}

#[test]
fn data_without_a_header_is_not_counted() {
    let mut scan = Scan::new();
    scan.absorb(1, &[0; 7]);
    assert_eq!(scan.db_inodes_read, 0);
    scan.absorb(1, &[0; 8]);
    assert_eq!(scan.db_inodes_read, 1);
    assert_eq!(scan.objects_with_subobjects, 0);
    assert!(scan.type_histogram.is_empty());
    assert!(scan.most_common_types().is_empty());
}

#[test]
fn the_last_program_of_an_fsid_is_held() {
    let mut scan = Scan::new();
    for title in [&b"First\0"[..], b"Last\0"] {
        scan.absorb(10, &object(&[subobject(obj_type::PROGRAM, &attribute(TYPE_STRING, 17, title))]));
        scan.absorb(11, &object(&[subobject(obj_type::STATION, &attribute(TYPE_STRING, 17, title))]));
    }
    scan.absorb(10, &object(&[subobject(obj_type::SERIES, &[])]));
    assert_eq!(scan.catalog.programs.len(), 1);
    assert_eq!(scan.catalog.programs[&10].title.as_deref(), Some("Last"));
    assert_eq!(scan.catalog.stations[&11].name.as_deref(), Some("Last"));
}

#[test]
fn every_recording_is_found_in_order() {
    let mut scan = Scan::new();
    for fsid in [30, 20, 40, 20] {
        scan.absorb(fsid, &object(&[subobject(obj_type::RECORDING, &[])]));
    }
    let fsids: Vec<u32> = scan.catalog.recordings.iter().map(|r| r.fsid).collect();
    assert_eq!(fsids, [30, 20, 40, 20]);
}

#[test]
fn the_most_common_types_are_listed() {
    let mut scan = Scan::new();
    for kind in 1..=30u16 {
        for _ in 0..kind {
            scan.absorb(1, &object(&[subobject(kind, &[])]));
        }
    }
    let listed = scan.most_common_types();
    assert_eq!(listed.len(), 25);
    for (i, entry) in listed.iter().enumerate() {
        let kind = 30 - i as u16;
        assert_eq!(*entry, TypeCount { obj_type: kind, count: kind as u64 });
    }
}

#[test]
fn a_type_line_is_aligned() {
    assert_eq!(type_line(&TypeCount { obj_type: 3, count: 1234 }), "    3: 1234");
    assert_eq!(type_line(&TypeCount { obj_type: 65535, count: 0 }), "  65535: 0");
    assert_eq!(type_line(&TypeCount { obj_type: 14, count: 7 }), format!("  {:>3}: {}", 14, 7));
}
