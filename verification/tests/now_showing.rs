use std::collections::HashMap;

use ovit_tools::index::{components, DirectoryEntry};
use ovit_tools::now_showing::{NowShowing, Request};
use ovit_tools::obj_type;
use ovit_tools::recordings::Catalog;
use ovit_tools::scan::Scan;

const TYPE_STRING: u8 = 64;
const TYPE_OBJECT: u8 = 128;

#[derive(Default)]
struct Disk {
    directories: HashMap<u32, Vec<(&'static str, u32)>>,
    inodes: HashMap<u32, u32>,
    contents: HashMap<u32, Vec<u8>>,
    requests: Vec<Request>,
}

impl Disk {
    fn add(&mut self, fsid: u32, data: Vec<u8>) {
        self.inodes.insert(fsid, fsid);
        self.contents.insert(fsid, data);
    }

    fn search(&mut self, root: u32) -> Option<Catalog> {
        let mut search = NowShowing::new(root);
        loop {
            let request = search.request();
            self.requests.push(request);
            match request {
                Request::ListDirectory(fsid) => search.take_directory(
                    self.directories.get(&fsid).map(|entries| {
                        entries
                            .iter()
                            .map(|(name, fsid)| DirectoryEntry { name: name.to_string(), fsid: *fsid })
                            .collect()
                    }),
                ),
                Request::FindInode(fsid) => search.take_inode(self.inodes.get(&fsid).copied()),
                Request::ReadData(fsid) => search.take_data(self.contents.get(&fsid).cloned()),
                Request::Done => return search.finish(),
            }
        }
    }
}

fn attribute(eltype: u8, id: u8, data: &[u8]) -> Vec<u8> {
    let mut attr = vec![eltype, id];
    attr.extend_from_slice(&((4 + data.len()) as u16).to_be_bytes());
    attr.extend_from_slice(data);
    while attr.len() % 4 != 0 {
        attr.push(0);
    }
    attr
}

fn subobject(obj_type: u16, attributes: &[u8]) -> Vec<u8> {
    let mut subobj = Vec::new();
    subobj.extend_from_slice(&((16 + attributes.len()) as u16).to_be_bytes());
    subobj.extend_from_slice(&[0, 0]);
    subobj.extend_from_slice(&obj_type.to_be_bytes());
    subobj.extend_from_slice(&[0; 10]);
    subobj.extend_from_slice(attributes);
    subobj
}

fn object(body: &[u8]) -> Vec<u8> {
    let mut buf = vec![0; 4];
    buf.extend_from_slice(&((8 + body.len()) as u32).to_be_bytes());
    buf.extend_from_slice(body);
    buf
}

fn reference(id: u8, fsid: u32) -> Vec<u8> {
    let mut data = fsid.to_be_bytes().to_vec();
    data.extend_from_slice(&[0; 4]);
    attribute(TYPE_OBJECT, id, &data)
}

fn recording(program: u32, station: u32) -> Vec<u8> {
    let mut body = subobject(obj_type::RECORDING, &[]);
    body.extend(subobject(obj_type::SHOWING, &[reference(16, program), reference(17, station)].concat()));
    object(&body)
}

fn program(title: &str) -> Vec<u8> {
    object(&subobject(obj_type::PROGRAM, &attribute(TYPE_STRING, 17, format!("{}\0", title).as_bytes())))
}

fn station(call_sign: &str) -> Vec<u8> {
    object(&subobject(obj_type::STATION, &attribute(TYPE_STRING, 18, format!("{}\0", call_sign).as_bytes())))
}

fn disk() -> Disk {
    let mut disk = Disk::default();
    disk.directories.insert(1, vec![("Schedule", 2), ("Recording", 3)]);
    disk.directories.insert(3, vec![("Complete", 5), ("NowShowing", 4)]);
    disk.directories.insert(4, vec![("a", 100), ("b", 101)]);
    disk.directories.insert(5, vec![("c", 102)]);
    disk.add(100, recording(200, 300));
    disk.add(101, recording(201, 300));
    disk.add(102, recording(200, 300));
    disk.add(200, program("Nova"));
    disk.add(201, program("Frontline"));
    disk.add(300, station("WGBH"));
    disk
}

fn fsids(catalog: &Catalog) -> Vec<u32> {
    catalog.recordings.iter().map(|r| r.fsid).collect()
}

#[test]
fn paths_are_split_at_slashes() {
    assert_eq!(components("/Recording/NowShowing"), ["Recording", "NowShowing"]);
    assert_eq!(components("//a///b/"), ["a", "b"]);
    assert!(components("/").is_empty());
    assert!(components("").is_empty());
    assert_eq!(components("plain"), ["plain"]);
}

#[test]
fn recordings_are_followed_to_program_and_station() {
    let mut disk = disk();
    let found = disk.search(1).unwrap();
    assert_eq!(fsids(&found), [100, 101]);
    assert_eq!(found.programs.len(), 2);
    assert_eq!(found.programs[&200].title.as_deref(), Some("Nova"));
    assert_eq!(found.programs[&201].title.as_deref(), Some("Frontline"));
    assert_eq!(found.stations[&300].call_sign.as_deref(), Some("WGBH"));
    assert_eq!(
        disk.requests,
        [
            // There is no /Recording/NowShowingByClassic.
            Request::ListDirectory(1),
            Request::ListDirectory(3),
            Request::ListDirectory(1),
            Request::ListDirectory(3),
            Request::ListDirectory(4),
            Request::FindInode(100),
            Request::ReadData(100),
            Request::FindInode(200),
            Request::ReadData(200),
            Request::FindInode(300),
            Request::ReadData(300),
            Request::FindInode(101),
            Request::ReadData(101),
            Request::FindInode(201),
            Request::ReadData(201),
            // The station is known by now.
            Request::Done,
        ]
    );
}

#[test]
fn indexes_are_tried_in_order_of_preference() {
    let mut preferred = disk();
    preferred.directories.get_mut(&3).unwrap().push(("NowShowingByClassic", 5));
    assert_eq!(fsids(&preferred.search(1).unwrap()), [102]);

    let mut fallback = disk();
    fallback.directories.get_mut(&3).unwrap().retain(|(name, _)| *name == "Complete");
    assert_eq!(fsids(&fallback.search(1).unwrap()), [102]);
}

#[test]
fn a_path_follows_the_first_entry_of_a_name() {
    let mut twice = disk();
    twice.directories.get_mut(&3).unwrap().push(("NowShowing", 5));
    assert_eq!(fsids(&twice.search(1).unwrap()), [100, 101]);
}

#[test]
fn nothing_is_found_without_an_index() {
    assert!(Disk::default().search(1).is_none());
    let mut lost = disk();
    lost.directories.remove(&3);
    assert!(lost.search(1).is_none());
    // An index that is found but cannot be listed is not passed over.
    let mut unreadable = disk();
    unreadable.directories.remove(&4);
    assert!(unreadable.search(1).is_none());
    let mut empty = disk();
    empty.directories.insert(4, Vec::new());
    assert!(empty.search(1).is_none());
}

#[test]
fn the_wrong_inode_is_never_taken_for_an_object() {
    let mut disk = disk();
    disk.inodes.insert(100, 999);
    disk.inodes.insert(201, 200);
    let found = disk.search(1).unwrap();
    assert_eq!(fsids(&found), [101]);
    assert!(found.programs.is_empty());
    assert!(found.stations.contains_key(&300));
    assert!(!disk.requests.contains(&Request::ReadData(100)));
    assert!(!disk.requests.contains(&Request::ReadData(201)));
}

#[test]
fn what_cannot_be_read_is_left_out() {
    let mut disk = disk();
    disk.contents.remove(&100);
    disk.inodes.remove(&201);
    disk.contents.insert(300, program("not a station"));
    let found = disk.search(1).unwrap();
    assert_eq!(fsids(&found), [101]);
    assert!(found.programs.is_empty());
    assert!(found.stations.is_empty());
}

#[test]
fn failed_references_are_looked_for_again() {
    let mut disk = disk();
    disk.contents.remove(&300);
    let found = disk.search(1).unwrap();
    assert_eq!(fsids(&found), [100, 101]);
    assert!(found.stations.is_empty());
    let tries = disk.requests.iter().filter(|r| **r == Request::ReadData(300)).count();
    assert_eq!(tries, 2);
}

#[test]
fn objects_that_are_no_recordings_are_passed_over() {
    let mut disk = disk();
    disk.add(100, program("Nova"));
    disk.add(101, object(&subobject(obj_type::RECORDING, &[])));
    let found = disk.search(1).unwrap();
    assert_eq!(fsids(&found), [101]);
    assert_eq!(found.recordings[0].program_fsid, None);
    assert!(found.programs.is_empty() && found.stations.is_empty());
    disk.add(101, station("WGBH"));
    assert!(disk.search(1).is_none());
}

#[test]
fn a_scan_finds_what_an_index_leads_to() {
    let mut disk = disk();
    let found = disk.search(1).unwrap();
    let mut scan = Scan::new();
    for (fsid, data) in &disk.contents {
        scan.absorb(*fsid, data);
    }
    assert_eq!(scan.catalog.recordings.len(), 3);
    for recording in &found.recordings {
        assert!(scan.catalog.recordings.contains(recording));
        let row = found.row(recording);
        let same = scan.catalog.row(recording);
        assert_eq!((row.title, row.channel), (same.title, same.channel));
    }
}
