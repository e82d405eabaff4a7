//! What a drive answers, and what its `/Recording` index directories lead to.
//!
//! [`Drive`] stands for all that a drive answers when it is asked for directories,
//! inodes and data. [`Drive::recordings`] says which recordings are to be found on
//! it through an index, with the programs and stations they refer to.

use vstd::prelude::*;

use crate::object::{parsed_object, texts, Subobject};
use crate::recordings::{
    program_of, recording_of, station_of, Holdings, Program, Recording, Station,
};
use crate::scan::{collected, law_scan_finds_the_recordings};

verus! {

/// How many index directories there may be. Names vary across software versions.
pub const INDEX_PATHS: usize = 3;

/// The paths of the index directories, in order of preference.
pub open spec fn index_path(k: int) -> Seq<char> {
    if k == 0 {
        "/Recording/NowShowingByClassic"@
    } else if k == 1 {
        "/Recording/NowShowing"@
    } else {
        "/Recording/Complete"@
    }
}

/// The path of an index directory.
pub fn index_path_text(k: usize) -> (path: &'static str)
    requires
        k < INDEX_PATHS,
    ensures
        path@ == index_path(k as int),
{
    if k == 0 {
        "/Recording/NowShowingByClassic"
    } else if k == 1 {
        "/Recording/NowShowing"
    } else {
        "/Recording/Complete"
    }
}

/// The pieces of a path between its slashes, with those before the first and
/// after the last.
pub open spec fn path_pieces(path: Seq<char>) -> Seq<Seq<char>>
    decreases path.len(),
{
    if path.len() == 0 {
        seq![Seq::empty()]
    } else {
        let pieces = path_pieces(path.drop_last());
        if path.last() == '/' {
            pieces.push(Seq::empty())
        } else {
            pieces.drop_last().push(pieces.last().push(path.last()))
        }
    }
}

/// The components of a path: its pieces that are not empty.
pub open spec fn path_components(path: Seq<char>) -> Seq<Seq<char>> {
    path_pieces(path).filter(|piece: Seq<char>| piece.len() > 0)
}

/// The components of a path.
pub fn components(path: &str) -> (parts: Vec<String>)
    ensures
        texts(parts@) == path_components(path@),
{
    let keep = Ghost(|piece: Seq<char>| piece.len() > 0);
    let mut parts: Vec<String> = Vec::new();
    let mut current = String::new();
    let len: usize = path.unicode_len();
    let mut i: usize = 0;
    proof {
        reveal(Seq::filter);
        assert(path@.take(0) =~= Seq::<char>::empty());
        assert(path_pieces(path@.take(0)).drop_last() =~= Seq::<Seq<char>>::empty());
        assert(texts(parts@) =~= Seq::<Seq<char>>::empty());
        assert(current@ =~= Seq::<char>::empty());
    }
    while i < len
        invariant
            i <= len,
            len == path@.len(),
            keep@ == (|piece: Seq<char>| piece.len() > 0),
            path_pieces(path@.take(i as int)).len() > 0,
            texts(parts@) == path_pieces(path@.take(i as int)).drop_last().filter(keep@),
            current@ == path_pieces(path@.take(i as int)).last(),
        decreases len - i,
    {
        let ghost before = path_pieces(path@.take(i as int));
        let ghost had = texts(parts@);
        let c: char = path.get_char(i);
        i += 1;
        proof {
            assert(path@.take(i as int).drop_last() =~= path@.take(i - 1));
            Seq::lemma_filter_push(before.drop_last(), before.last(), keep@);
            assert(before.drop_last().push(before.last()) =~= before);
        }
        if c == '/' {
            if !current.as_str().is_empty() {
                parts.push(current);
                assert(texts(parts@) =~= had.push(before.last()));
            }
            current = String::new();
            assert(current@ =~= Seq::<char>::empty());
            assert(before.push(Seq::<char>::empty()).drop_last() =~= before);
        } else {
            current.push(c);
            assert(before.drop_last().push(before.last().push(c)).drop_last()
                =~= before.drop_last());
        }
    }
    proof {
        let pieces = path_pieces(path@);
        assert(path@.take(len as int) =~= path@);
        Seq::lemma_filter_push(pieces.drop_last(), pieces.last(), keep@);
        assert(pieces.drop_last().push(pieces.last()) =~= pieces);
    }
    let ghost had = texts(parts@);
    if !current.as_str().is_empty() {
        let ghost last = current@;
        parts.push(current);
        assert(texts(parts@) =~= had.push(last));
    }
    parts
}

/// The absolute path of the given components.
pub open spec fn joined(components: Seq<Seq<char>>) -> Seq<char>
    decreases components.len(),
{
    if components.len() == 0 {
        Seq::empty()
    } else {
        joined(components.drop_last()) + seq!['/'] + components.last()
    }
}

proof fn lemma_slash_starts_piece(front: Seq<char>, piece: Seq<char>)
    requires
        !piece.contains('/'),
    ensures
        path_pieces(front + seq!['/'] + piece) == path_pieces(front).push(piece),
    decreases piece.len(),
{
    let whole = front + seq!['/'] + piece;
    if piece.len() == 0 {
        assert(whole.drop_last() =~= front);
        assert(piece =~= Seq::<char>::empty());
    } else {
        let shorter = piece.drop_last();
        assert forall|i: int| 0 <= i < shorter.len() implies shorter[i] != '/' by {
            assert(shorter[i] == piece[i]);
        }
        lemma_slash_starts_piece(front, shorter);
        assert(whole.drop_last() =~= front + seq!['/'] + shorter);
        assert(whole.last() == piece.last());
        assert(piece.contains(piece.last()));
        let pieces = path_pieces(front).push(shorter);
        assert(pieces.drop_last() =~= path_pieces(front));
        assert(shorter.push(piece.last()) =~= piece);
    }
}

proof fn lemma_pieces_of_both(a: Seq<char>, b: Seq<char>)
    ensures
        path_pieces(a.push('/') + b) == path_pieces(a) + path_pieces(b),
        path_pieces(a).len() > 0,
        path_pieces(b).len() > 0,
    decreases a.len() + b.len(),
{
    let whole = a.push('/') + b;
    let none = Seq::<char>::empty();
    if a.len() > 0 {
        lemma_pieces_of_both(a.drop_last(), none);
    }
    if b.len() == 0 {
        assert(whole =~= a.push('/'));
        assert(a.push('/').drop_last() =~= a);
        assert(path_pieces(a).push(none) =~= path_pieces(a) + path_pieces(b));
    } else {
        let shorter = b.drop_last();
        lemma_pieces_of_both(a, shorter);
        assert(whole.drop_last() =~= a.push('/') + shorter);
        assert(whole.last() == b.last());
        let before = path_pieces(shorter);
        assert((path_pieces(a) + before).drop_last() =~= path_pieces(a) + before.drop_last());
        assert((path_pieces(a) + before).last() == before.last());
        assert(path_pieces(whole) =~= path_pieces(a) + path_pieces(b));
    }
}

/// A slash parts the components before it from those behind it, and neither have
/// a bearing on the others.
pub proof fn law_slash_parts_components(a: Seq<char>, b: Seq<char>)
    ensures
        path_components(a.push('/') + b) == path_components(a) + path_components(b),
{
    lemma_pieces_of_both(a, b);
    Seq::filter_distributes_over_add(
        path_pieces(a),
        path_pieces(b),
        |piece: Seq<char>| piece.len() > 0,
    );
}

/// A name without a slash is one component, all of it; nothing is no component.
pub proof fn law_name_is_one_component(name: Seq<char>)
    requires
        !name.contains('/'),
    ensures
        name.len() > 0 ==> path_components(name) == seq![name],
        name.len() == 0 ==> path_components(name) == Seq::<Seq<char>>::empty(),
{
    let none = Seq::<char>::empty();
    if name.len() > 0 {
        let names = seq![name];
        law_components_read_back(names);
        assert(names.drop_last() =~= Seq::<Seq<char>>::empty());
        reveal_with_fuel(joined, 2);
        assert(joined(names) =~= none.push('/') + name);
        law_slash_parts_components(none, name);
        assert(none =~= joined(Seq::<Seq<char>>::empty()));
        law_components_read_back(Seq::<Seq<char>>::empty());
        assert(path_components(none) + path_components(name) =~= path_components(name));
    } else {
        assert(name =~= joined(Seq::<Seq<char>>::empty()));
        law_components_read_back(Seq::<Seq<char>>::empty());
    }
}

/// The components of a path are the names that were joined into it.
pub proof fn law_components_read_back(components: Seq<Seq<char>>)
    requires
        forall|i: int|
            0 <= i < components.len() ==> (#[trigger] components[i]).len() > 0
                && !components[i].contains('/'),
    ensures
        path_components(joined(components)) == components,
    decreases components.len(),
{
    let keep = |piece: Seq<char>| piece.len() > 0;
    if components.len() == 0 {
        reveal_with_fuel(Seq::filter, 2);
        assert(path_pieces(joined(components)).drop_last() =~= Seq::<Seq<char>>::empty());
        assert(path_components(joined(components)) =~= components);
    } else {
        let fewer = components.drop_last();
        assert forall|i: int| 0 <= i < fewer.len() implies (#[trigger] fewer[i]).len() > 0
            && !fewer[i].contains('/') by {
            assert(fewer[i] == components[i]);
        }
        law_components_read_back(fewer);
        lemma_slash_starts_piece(joined(fewer), components.last());
        Seq::lemma_filter_push(path_pieces(joined(fewer)), components.last(), keep);
        assert(path_components(joined(components)) =~= components);
    }
}

/// An entry of a directory.
pub struct DirectoryEntry {
    pub name: String,
    pub fsid: u32,
}

/// What a [`DirectoryEntry`] holds.
pub struct Entry {
    pub name: Seq<char>,
    pub fsid: u32,
}

impl View for DirectoryEntry {
    type V = Entry;

    open spec fn view(&self) -> Entry {
        Entry { name: self.name@, fsid: self.fsid }
    }
}

pub open spec fn entry_views(entries: Seq<DirectoryEntry>) -> Seq<Entry> {
    entries.map_values(|e: DirectoryEntry| e@)
}

/// What is said of directory entries is said of all of them, and of all that each
/// holds.
pub proof fn law_views_hold_everything(entries: Seq<DirectoryEntry>)
    ensures
        entry_views(entries).len() == entries.len(),
        forall|k: int|
            0 <= k < entries.len() ==> (#[trigger] entry_views(entries)[k]).name
                == entries[k].name@ && entry_views(entries)[k].fsid == entries[k].fsid,
{
}

/// The fsid of the first entry of that name.
pub open spec fn entry_named(entries: Seq<Entry>, name: Seq<char>) -> Option<u32>
    decreases entries.len(),
{
    if entries.len() == 0 {
        None
    } else if entries[0].name == name {
        Some(entries[0].fsid)
    } else {
        entry_named(entries.drop_first(), name)
    }
}

/// A look-up by name gives the first entry of that name, wherever it stands in the
/// directory, and nothing only where no entry has the name.
pub proof fn law_look_up_gives_the_first_of_the_name(entries: Seq<Entry>, name: Seq<char>)
    ensures
        forall|i: int|
            0 <= i < entries.len() && (#[trigger] entries[i]).name == name && (forall|j: int|
                0 <= j < i ==> (#[trigger] entries[j]).name != name) ==> entry_named(entries, name)
                == Some(entries[i].fsid),
        (forall|i: int| 0 <= i < entries.len() ==> (#[trigger] entries[i]).name != name)
            <==> entry_named(entries, name) is None,
{
    if entry_named(entries, name) is Some {
        let first = lemma_first_entry(entries, name);
        assert(entries[first].name == name);
        assert forall|i: int|
            0 <= i < entries.len() && (#[trigger] entries[i]).name == name && (forall|j: int|
                0 <= j < i ==> (#[trigger] entries[j]).name != name) implies entry_named(
            entries,
            name,
        ) == Some(entries[i].fsid) by {
            if first < i {
                assert(entries[first].name != name);
            } else if i < first {
                assert(entries[i].name != name);
            }
        }
    } else {
        lemma_no_entry(entries, name);
    }
}

proof fn lemma_no_entry(entries: Seq<Entry>, name: Seq<char>)
    requires
        entry_named(entries, name) is None,
    ensures
        forall|i: int| 0 <= i < entries.len() ==> (#[trigger] entries[i]).name != name,
    decreases entries.len(),
{
    if entries.len() > 0 {
        let rest = entries.drop_first();
        lemma_no_entry(rest, name);
        assert forall|i: int| 0 <= i < entries.len() implies (#[trigger] entries[i]).name
            != name by {
            if i > 0 {
                assert(rest[i - 1] == entries[i]);
            }
        }
    }
}

/// What a drive answers: which directories it can list, which inode a look-up by
/// fsid finds, and what data it can read from that inode.
pub struct Drive {
    pub root: u32,
    pub directories: Map<u32, Seq<Entry>>,
    pub inodes: Map<u32, u32>,
    pub contents: Map<u32, Seq<u8>>,
}

/// What is held, if there is a recording among it.
pub open spec fn if_any(held: Holdings) -> Option<Holdings> {
    if held.recordings.len() > 0 {
        Some(held)
    } else {
        None
    }
}

impl Drive {
    /// Where a walk along `components` from the directory `fsid` ends.
    pub open spec fn walk(self, fsid: u32, components: Seq<Seq<char>>) -> Option<u32>
        decreases components.len(),
    {
        if components.len() == 0 {
            Some(fsid)
        } else if self.directories.contains_key(fsid) {
            match entry_named(self.directories[fsid], components[0]) {
                Some(next) => self.walk(next, components.drop_first()),
                None => None,
            }
        } else {
            None
        }
    }

    /// The fsid that an absolute path leads to.
    pub open spec fn resolve(self, path: Seq<char>) -> Option<u32> {
        self.walk(self.root, path_components(path))
    }

    /// The object in the data read for `fsid`.
    pub open spec fn object_in(self, fsid: u32) -> Option<Seq<Subobject>> {
        if self.contents.contains_key(fsid) {
            Some(parsed_object(self.contents[fsid]))
        } else {
            None
        }
    }

    /// The object `fsid`. A look-up can find an inode with another fsid; there is
    /// no object then, so that the wrong one is never taken for it.
    pub open spec fn object(self, fsid: u32) -> Option<Seq<Subobject>> {
        if self.inodes.contains_key(fsid) && self.inodes[fsid] == fsid {
            self.object_in(fsid)
        } else {
            None
        }
    }

    /// `programs` with the one that a recording refers to, where it was missing.
    pub open spec fn add_program(
        self,
        reference: Option<u32>,
        programs: Map<u32, Program>,
    ) -> Map<u32, Program> {
        match reference {
            Some(fsid) if !programs.contains_key(fsid) => with_program(
                programs,
                fsid,
                self.object(fsid),
            ),
            _ => programs,
        }
    }

    /// `stations` with the one that a recording refers to, where it was missing.
    pub open spec fn add_station(
        self,
        reference: Option<u32>,
        stations: Map<u32, Station>,
    ) -> Map<u32, Station> {
        match reference {
            Some(fsid) if !stations.contains_key(fsid) => with_station(
                stations,
                fsid,
                self.object(fsid),
            ),
            _ => stations,
        }
    }

    /// What is held once `recording` and all it refers to have been added.
    pub open spec fn add_recording(self, recording: Recording, held: Holdings) -> Holdings {
        Holdings {
            recordings: held.recordings.push(recording),
            programs: self.add_program(recording.program_fsid, held.programs),
            stations: self.add_station(recording.station_fsid, held.stations),
        }
    }

    /// What is held once the object found under `fsid` has been looked at.
    pub open spec fn add_object(
        self,
        fsid: u32,
        object: Option<Seq<Subobject>>,
        held: Holdings,
    ) -> Holdings {
        match object {
            Some(subobjects) => match recording_of(fsid, subobjects) {
                Some(recording) => self.add_recording(recording, held),
                None => held,
            },
            None => held,
        }
    }

    /// What is held once all the entries of an index have been followed.
    pub open spec fn follow(self, entries: Seq<Entry>, held: Holdings) -> Holdings
        decreases entries.len(),
    {
        if entries.len() == 0 {
            held
        } else {
            let fsid = entries[0].fsid;
            self.follow(entries.drop_first(), self.add_object(fsid, self.object(fsid), held))
        }
    }

    /// What the index directory `fsid` leads to.
    pub open spec fn indexed(self, fsid: u32) -> Option<Holdings> {
        if self.directories.contains_key(fsid) {
            if_any(self.follow(self.directories[fsid], Holdings::empty()))
        } else {
            None
        }
    }

    /// What the first index directory leads to that can be found from number `k` on.
    pub open spec fn indexed_from(self, k: int) -> Option<Holdings>
        decreases INDEX_PATHS - k,
    {
        if k >= INDEX_PATHS {
            None
        } else {
            match self.resolve(index_path(k)) {
                Some(fsid) => self.indexed(fsid),
                None => self.indexed_from(k + 1),
            }
        }
    }

    /// The recordings that the first index directory found leads to, if any, with
    /// the programs and stations they refer to.
    pub open spec fn recordings(self) -> Option<Holdings> {
        self.indexed_from(0)
    }
}

/// `programs` with that of the object `fsid`, if the object describes one.
pub open spec fn with_program(
    programs: Map<u32, Program>,
    fsid: u32,
    object: Option<Seq<Subobject>>,
) -> Map<u32, Program> {
    match object {
        Some(subobjects) => match program_of(subobjects) {
            Some(program) => programs.insert(fsid, program),
            None => programs,
        },
        None => programs,
    }
}

/// `stations` with that of the object `fsid`, if the object describes one.
pub open spec fn with_station(
    stations: Map<u32, Station>,
    fsid: u32,
    object: Option<Seq<Subobject>>,
) -> Map<u32, Station> {
    match object {
        Some(subobjects) => match station_of(subobjects) {
            Some(station) => stations.insert(fsid, station),
            None => stations,
        },
        None => stations,
    }
}

/// Finds the first entry of that name.
pub fn find_entry(entries: &Vec<DirectoryEntry>, name: &String) -> (fsid: Option<u32>)
    ensures
        fsid == entry_named(entry_views(entries@), name@),
        match fsid {
            Some(f) => exists|i: int|
                0 <= i < entries@.len() && (#[trigger] entries@[i]).name@ == name@
                    && entries@[i].fsid == f && forall|j: int|
                    0 <= j < i ==> (#[trigger] entries@[j]).name@ != name@,
            None => forall|i: int|
                0 <= i < entries@.len() ==> (#[trigger] entries@[i]).name@ != name@,
        },
{
    let ghost all = entry_views(entries@);
    let mut i: usize = 0;
    assert(all.skip(0) =~= all);
    while i < entries.len()
        invariant
            i <= entries@.len(),
            all == entry_views(entries@),
            entry_named(all, name@) == entry_named(all.skip(i as int), name@),
            forall|j: int| 0 <= j < i ==> (#[trigger] entries@[j]).name@ != name@,
        decreases entries@.len() - i,
    {
        assert(all.skip(i as int)[0] == entries@[i as int]@);
        if entries[i].name == *name {
            return Some(entries[i].fsid);
        }
        i += 1;
        assert(all.skip(i - 1).drop_first() =~= all.skip(i as int));
    }
    None
}

impl Drive {
    /// The recording that the object `fsid` describes.
    pub open spec fn recording_at(self, fsid: u32) -> Option<Recording> {
        match self.object(fsid) {
            Some(subobjects) => recording_of(fsid, subobjects),
            None => None,
        }
    }

    /// The program that a reference leads to; unknown where there is none.
    pub open spec fn program_at(self, reference: Option<u32>) -> Program {
        match reference {
            Some(fsid) => match self.object(fsid) {
                Some(subobjects) => match program_of(subobjects) {
                    Some(program) => program,
                    None => Program::unknown(),
                },
                None => Program::unknown(),
            },
            None => Program::unknown(),
        }
    }

    /// The station that a reference leads to; unknown where there is none.
    pub open spec fn station_at(self, reference: Option<u32>) -> Station {
        match reference {
            Some(fsid) => match self.object(fsid) {
                Some(subobjects) => match station_of(subobjects) {
                    Some(station) => station,
                    None => Station::unknown(),
                },
                None => Station::unknown(),
            },
            None => Station::unknown(),
        }
    }

    /// Every program and station held is that of its own object, and those of
    /// each recording held are the ones that its references lead to.
    pub open spec fn is_faithful(self, held: Holdings) -> bool {
        &&& forall|fsid: u32| #[trigger]
            held.programs.contains_key(fsid) ==> held.programs[fsid] == self.program_at(Some(fsid))
        &&& forall|fsid: u32| #[trigger]
            held.stations.contains_key(fsid) ==> held.stations[fsid] == self.station_at(Some(fsid))
        &&& forall|i: int|
            0 <= i < held.recordings.len() ==> held.program(#[trigger] held.recordings[i])
                == self.program_at(held.recordings[i].program_fsid)
        &&& forall|i: int|
            0 <= i < held.recordings.len() ==> held.station(#[trigger] held.recordings[i])
                == self.station_at(held.recordings[i].station_fsid)
    }
}

proof fn lemma_recordings_followed(
    drive: Drive,
    entries: Seq<Entry>,
    held: Holdings,
    recording: Recording,
)
    ensures
        drive.follow(entries, held).recordings.contains(recording) <==> held.recordings.contains(
            recording,
        ) || exists|i: int|
            0 <= i < entries.len() && drive.recording_at((#[trigger] entries[i]).fsid) == Some(
                recording,
            ),
    decreases entries.len(),
{
    if entries.len() > 0 {
        let rest = entries.drop_first();
        let fsid = entries[0].fsid;
        let now = drive.add_object(fsid, drive.object(fsid), held);
        lemma_recordings_followed(drive, rest, now, recording);
        assert forall|i: int| 0 <= i < rest.len() implies #[trigger] rest[i] == entries[i + 1] by {
        }
        if drive.recording_at(fsid) is Some {
            let added = drive.recording_at(fsid)->0;
            assert(now.recordings == held.recordings.push(added));
            assert(now.recordings.last() == added);
            if held.recordings.contains(recording) {
                let k = choose|k: int|
                    0 <= k < held.recordings.len() && held.recordings[k] == recording;
                assert(now.recordings[k] == recording);
            }
            if now.recordings.contains(recording) && recording != added {
                let k = choose|k: int|
                    0 <= k < now.recordings.len() && now.recordings[k] == recording;
                assert(held.recordings[k] == recording);
            }
        }
        let later = exists|i: int|
            0 <= i < rest.len() && drive.recording_at((#[trigger] rest[i]).fsid) == Some(recording);
        if later {
            let i = choose|i: int|
                0 <= i < rest.len() && drive.recording_at((#[trigger] rest[i]).fsid) == Some(
                    recording,
                );
            assert(entries[i + 1] == rest[i]);
        }
        let any = exists|i: int|
            0 <= i < entries.len() && drive.recording_at((#[trigger] entries[i]).fsid) == Some(
                recording,
            );
        if any {
            let i = choose|i: int|
                0 <= i < entries.len() && drive.recording_at((#[trigger] entries[i]).fsid) == Some(
                    recording,
                );
            if i > 0 {
                assert(rest[i - 1] == entries[i]);
            }
        }
    }
}

/// An index leads to the recordings that its entries describe, and to no other.
pub proof fn law_index_leads_to_its_recordings(drive: Drive, fsid: u32, recording: Recording)
    requires
        drive.directories.contains_key(fsid),
    ensures
        (drive.indexed(fsid) is Some && (drive.indexed(fsid)->0).recordings.contains(recording))
            <==> exists|i: int|
            0 <= i < drive.directories[fsid].len() && drive.recording_at(
                (#[trigger] drive.directories[fsid][i]).fsid,
            ) == Some(recording),
{
    let entries = drive.directories[fsid];
    let held = drive.follow(entries, Holdings::empty());
    lemma_recordings_followed(drive, entries, Holdings::empty(), recording);
    if held.recordings.contains(recording) {
        assert(held.recordings.len() > 0);
    }
}

/// A recording bears the fsid it was looked up by, which is that of the inode
/// that was found.
pub proof fn law_recordings_keep_their_fsid(drive: Drive, fsid: u32)
    requires
        drive.recording_at(fsid) is Some,
    ensures
        (drive.recording_at(fsid)->0).fsid == fsid,
        drive.inodes.contains_key(fsid) && drive.inodes[fsid] == fsid,
{
}

/// A scan that reads the objects of a drive finds whatever an index leads to.
pub proof fn law_scan_finds_what_an_index_leads_to(
    drive: Drive,
    fsid: u32,
    objects: Seq<(u32, Seq<u8>)>,
    recording: Recording,
)
    requires
        drive.indexed(fsid) is Some,
        (drive.indexed(fsid)->0).recordings.contains(recording),
        forall|f: u32| #[trigger]
            drive.object(f) is Some ==> objects.contains((f, drive.contents[f])),
    ensures
        collected(objects).recordings.contains(recording),
{
    law_index_leads_to_its_recordings(drive, fsid, recording);
    let entries = drive.directories[fsid];
    let i = choose|i: int|
        0 <= i < entries.len() && drive.recording_at((#[trigger] entries[i]).fsid) == Some(
            recording,
        );
    let f = entries[i].fsid;
    assert(drive.object(f) is Some);
    let k = choose|k: int| 0 <= k < objects.len() && objects[k] == (f, drive.contents[f]);
    assert(recording_of(objects[k].0, parsed_object(objects[k].1)) == Some(recording));
    law_scan_finds_the_recordings(objects, recording);
}

proof fn lemma_adding_is_faithful(drive: Drive, recording: Recording, held: Holdings)
    requires
        drive.is_faithful(held),
    ensures
        drive.is_faithful(drive.add_recording(recording, held)),
{
    let now = drive.add_recording(recording, held);
    assert forall|i: int| 0 <= i < now.recordings.len() implies now.program(
        #[trigger] now.recordings[i],
    ) == drive.program_at(now.recordings[i].program_fsid) && now.station(now.recordings[i])
        == drive.station_at(now.recordings[i].station_fsid) by {
        let earlier = now.recordings[i];
        if i < held.recordings.len() {
            assert(earlier == held.recordings[i]);
            assert(held.program(earlier) == drive.program_at(earlier.program_fsid));
            assert(held.station(earlier) == drive.station_at(earlier.station_fsid));
        }
    }
}

proof fn lemma_following_is_faithful(drive: Drive, entries: Seq<Entry>, held: Holdings)
    requires
        drive.is_faithful(held),
    ensures
        drive.is_faithful(drive.follow(entries, held)),
    decreases entries.len(),
{
    if entries.len() > 0 {
        let fsid = entries[0].fsid;
        if drive.recording_at(fsid) is Some {
            lemma_adding_is_faithful(drive, drive.recording_at(fsid)->0, held);
        }
        lemma_following_is_faithful(
            drive,
            entries.drop_first(),
            drive.add_object(fsid, drive.object(fsid), held),
        );
    }
}

/// Every recording found through an index is listed with the program and the
/// station that its own references lead to, however often they were looked for.
pub proof fn law_index_search_is_faithful(drive: Drive)
    ensures
        drive.recordings() is Some ==> drive.is_faithful(drive.recordings()->0),
{
    lemma_search_is_faithful(drive, 0);
}

proof fn lemma_search_is_faithful(drive: Drive, k: int)
    requires
        0 <= k,
    ensures
        drive.indexed_from(k) is Some ==> drive.is_faithful(drive.indexed_from(k)->0),
    decreases INDEX_PATHS - k,
{
    if k < INDEX_PATHS {
        match drive.resolve(index_path(k)) {
            Some(fsid) => if drive.directories.contains_key(fsid) {
                lemma_following_is_faithful(drive, drive.directories[fsid], Holdings::empty());
            },
            None => lemma_search_is_faithful(drive, k + 1),
        }
    }
}

/// A path is walked one component after the other.
pub proof fn law_walk_goes_step_by_step(
    drive: Drive,
    fsid: u32,
    front: Seq<Seq<char>>,
    back: Seq<Seq<char>>,
)
    ensures
        drive.walk(fsid, front + back) == (match drive.walk(fsid, front) {
            Some(middle) => drive.walk(middle, back),
            None => None,
        }),
    decreases front.len(),
{
    if front.len() == 0 {
        assert(front + back =~= back);
    } else {
        let whole = front + back;
        assert(whole[0] == front[0]);
        assert(whole.drop_first() =~= front.drop_first() + back);
        if drive.directories.contains_key(fsid) {
            if let Some(next) = entry_named(drive.directories[fsid], front[0]) {
                law_walk_goes_step_by_step(drive, next, front.drop_first(), back);
            }
        }
    }
}

/// The first entry of that name has that fsid.
pub open spec fn leads_to(entries: Seq<Entry>, name: Seq<char>, fsid: u32) -> bool {
    exists|i: int|
        {
            &&& 0 <= i < entries.len()
            &&& (#[trigger] entries[i]).name == name
            &&& entries[i].fsid == fsid
            &&& forall|j: int| 0 <= j < i ==> (#[trigger] entries[j]).name != name
        }
}

/// Each of the directories can be listed, and its first entry of the name that
/// comes next leads to the next.
pub open spec fn is_walk(drive: Drive, components: Seq<Seq<char>>, fsids: Seq<u32>) -> bool {
    &&& fsids.len() == components.len() + 1
    &&& forall|k: int|
        0 <= k < components.len() ==> {
            let at = #[trigger] fsids[k];
            &&& drive.directories.contains_key(at)
            &&& leads_to(drive.directories[at], components[k], fsids[k + 1])
        }
}

proof fn lemma_first_entry(entries: Seq<Entry>, name: Seq<char>) -> (i: int)
    requires
        entry_named(entries, name) is Some,
    ensures
        0 <= i < entries.len(),
        entries[i].name == name,
        entries[i].fsid == entry_named(entries, name)->0,
        forall|j: int| 0 <= j < i ==> (#[trigger] entries[j]).name != name,
    decreases entries.len(),
{
    if entries[0].name == name {
        0
    } else {
        let rest = entries.drop_first();
        let i = lemma_first_entry(rest, name) + 1;
        assert forall|j: int| 0 <= j < i implies (#[trigger] entries[j]).name != name by {
            if j > 0 {
                assert(rest[j - 1] == entries[j]);
            }
        }
        i
    }
}

proof fn lemma_leads_to(entries: Seq<Entry>, name: Seq<char>, fsid: u32)
    ensures
        leads_to(entries, name, fsid) <==> entry_named(entries, name) == Some(fsid),
{
    if entry_named(entries, name) == Some(fsid) {
        let i = lemma_first_entry(entries, name);
        assert(entries[i].fsid == fsid);
    }
    law_look_up_gives_the_first_of_the_name(entries, name);
}

proof fn lemma_walk_passes(drive: Drive, fsid: u32, components: Seq<Seq<char>>) -> (fsids: Seq<
    u32,
>)
    requires
        drive.walk(fsid, components) is Some,
    ensures
        is_walk(drive, components, fsids),
        fsids[0] == fsid,
        fsids[components.len() as int] == drive.walk(fsid, components)->0,
    decreases components.len(),
{
    if components.len() == 0 {
        seq![fsid]
    } else {
        let rest = components.drop_first();
        let entries = drive.directories[fsid];
        let next = entry_named(entries, components[0])->0;
        let later = lemma_walk_passes(drive, next, rest);
        let all = seq![fsid] + later;
        assert forall|k: int| 0 <= k < components.len() implies drive.directories.contains_key(
            #[trigger] all[k],
        ) && leads_to(drive.directories[all[k]], components[k], all[k + 1]) by {
            if k == 0 {
                lemma_leads_to(entries, components[0], next);
            } else {
                assert(all[k] == later[k - 1]);
                assert(all[k + 1] == later[k]);
                assert(components[k] == rest[k - 1]);
            }
        }
        all
    }
}

proof fn lemma_passes_walk(drive: Drive, components: Seq<Seq<char>>, fsids: Seq<u32>)
    requires
        is_walk(drive, components, fsids),
    ensures
        drive.walk(fsids[0], components) == Some(fsids[components.len() as int]),
    decreases components.len(),
{
    if components.len() > 0 {
        let rest = components.drop_first();
        let later = fsids.drop_first();
        assert(drive.directories.contains_key(fsids[0]));
        lemma_leads_to(drive.directories[fsids[0]], components[0], fsids[1]);
        assert forall|k: int| 0 <= k < rest.len() implies drive.directories.contains_key(
            #[trigger] later[k],
        ) && leads_to(drive.directories[later[k]], rest[k], later[k + 1]) by {
            assert(later[k] == fsids[k + 1]);
            assert(later[k + 1] == fsids[k + 2]);
            assert(rest[k] == components[k + 1]);
        }
        lemma_passes_walk(drive, rest, later);
    }
}

/// A walk along components ends at an fsid exactly where directories lead from
/// one to the next up to it, each by its first entry of the name that comes next.
pub proof fn law_walk_goes_from_directory_to_directory(
    drive: Drive,
    fsid: u32,
    components: Seq<Seq<char>>,
    end: u32,
)
    ensures
        drive.walk(fsid, components) == Some(end) <==> exists|fsids: Seq<u32>| #[trigger]
            is_walk(drive, components, fsids) && fsids[0] == fsid && fsids[components.len() as int]
                == end,
{
    if drive.walk(fsid, components) == Some(end) {
        let fsids = lemma_walk_passes(drive, fsid, components);
        assert(is_walk(drive, components, fsids));
    }
    if exists|fsids: Seq<u32>| #[trigger]
        is_walk(drive, components, fsids) && fsids[0] == fsid && fsids[components.len() as int]
            == end {
        let fsids = choose|fsids: Seq<u32>| #[trigger]
            is_walk(drive, components, fsids) && fsids[0] == fsid && fsids[components.len() as int]
                == end;
        lemma_passes_walk(drive, components, fsids);
    }
}

/// The first of the three index paths that can be resolved decides, and none but
/// these three; one that is found but leads nowhere is not passed over.
pub proof fn law_first_index_found_decides(drive: Drive)
    ensures
        ({
            let first = drive.walk(drive.root, seq!["Recording"@, "NowShowingByClassic"@]);
            let second = drive.walk(drive.root, seq!["Recording"@, "NowShowing"@]);
            let third = drive.walk(drive.root, seq!["Recording"@, "Complete"@]);
            &&& first matches Some(fsid) ==> drive.recordings() == drive.indexed(fsid)
            &&& first is None ==> (second matches Some(fsid) ==> drive.recordings()
                == drive.indexed(fsid))
            &&& first is None && second is None ==> (third matches Some(fsid)
                ==> drive.recordings() == drive.indexed(fsid))
            &&& first is None && second is None && third is None ==> drive.recordings() is None
        }),
{
    reveal_strlit("Recording");
    reveal_strlit("NowShowingByClassic");
    reveal_strlit("NowShowing");
    reveal_strlit("Complete");
    reveal_strlit("/Recording/NowShowingByClassic");
    reveal_strlit("/Recording/NowShowing");
    reveal_strlit("/Recording/Complete");
    lemma_two_names("Recording"@, "NowShowingByClassic"@, index_path(0));
    lemma_two_names("Recording"@, "NowShowing"@, index_path(1));
    lemma_two_names("Recording"@, "Complete"@, index_path(2));
    reveal_with_fuel(Drive::indexed_from, 4);
}

proof fn lemma_two_names(a: Seq<char>, b: Seq<char>, path: Seq<char>)
    requires
        a.len() > 0 && !a.contains('/'),
        b.len() > 0 && !b.contains('/'),
        path =~= seq!['/'] + a + seq!['/'] + b,
    ensures
        path_components(path) == seq![a, b],
{
    let names = seq![a, b];
    assert(names.drop_last() =~= seq![a]);
    assert(seq![a].drop_last() =~= Seq::<Seq<char>>::empty());
    reveal_with_fuel(joined, 3);
    assert(joined(seq![a]) =~= seq!['/'] + a);
    assert(joined(names) =~= path);
    law_components_read_back(names);
}

/// An object is there exactly where the look-up of its fsid finds an inode with
/// that very fsid whose data can be read; it is what that data holds.
pub proof fn law_object_is_that_of_its_own_inode(drive: Drive, fsid: u32)
    ensures
        drive.object(fsid) is Some <==> drive.inodes.contains_key(fsid) && drive.inodes[fsid]
            == fsid && drive.contents.contains_key(fsid),
        drive.object(fsid) matches Some(object) ==> object == parsed_object(drive.contents[fsid]),
{
}

proof fn lemma_followed_one_for_one(drive: Drive, entries: Seq<Entry>, held: Holdings)
    ensures
        drive.follow(entries, held).recordings == held.recordings + entries.filter(
            |e: Entry| drive.recording_at(e.fsid) is Some,
        ).map_values(|e: Entry| drive.recording_at(e.fsid)->0),
    decreases entries.len(),
{
    let describes = |e: Entry| drive.recording_at(e.fsid) is Some;
    let described = |e: Entry| drive.recording_at(e.fsid)->0;
    let kept = entries.filter(describes).map_values(described);
    if entries.len() == 0 {
        reveal(Seq::filter);
        assert(held.recordings + kept =~= held.recordings);
    } else {
        let head = seq![entries[0]];
        let rest = entries.drop_first();
        let fsid = entries[0].fsid;
        let now = drive.add_object(fsid, drive.object(fsid), held);
        lemma_followed_one_for_one(drive, rest, now);
        assert(entries =~= head + rest);
        Seq::filter_distributes_over_add(head, rest, describes);
        let none = Seq::<Entry>::empty();
        assert(head =~= none.push(entries[0]));
        Seq::lemma_filter_push(none, entries[0], describes);
        assert(none.filter(describes) =~= none) by {
            reveal(Seq::filter);
        }
        let later = rest.filter(describes).map_values(described);
        if describes(entries[0]) {
            assert(kept =~= seq![described(entries[0])] + later);
            assert(now.recordings + later =~= held.recordings + kept);
        } else {
            assert(kept =~= later);
        }
    }
}

/// The recordings that an index leads to are, one for one and in order, those that
/// its entries describe; it leads nowhere where it cannot be listed or describes
/// none.
pub proof fn law_index_holds_recordings_one_for_one(drive: Drive, fsid: u32)
    ensures
        !drive.directories.contains_key(fsid) ==> drive.indexed(fsid) is None,
        drive.directories.contains_key(fsid) ==> ({
            let described = drive.directories[fsid].filter(
                |e: Entry| drive.recording_at(e.fsid) is Some,
            ).map_values(|e: Entry| drive.recording_at(e.fsid)->0);
            &&& drive.indexed(fsid) is None <==> described.len() == 0
            &&& drive.indexed(fsid) matches Some(held) ==> held.recordings == described
        }),
{
    if drive.directories.contains_key(fsid) {
        let entries = drive.directories[fsid];
        lemma_followed_one_for_one(drive, entries, Holdings::empty());
        let described = entries.filter(|e: Entry| drive.recording_at(e.fsid) is Some).map_values(
            |e: Entry| drive.recording_at(e.fsid)->0,
        );
        assert(Seq::<Recording>::empty() + described =~= described);
    }
}

/// A recording refers to the program `fsid`.
pub open spec fn refers_to_program(recordings: Seq<Recording>, fsid: u32) -> bool {
    exists|i: int|
        0 <= i < recordings.len() && (#[trigger] recordings[i]).program_fsid == Some(fsid)
}

/// A recording refers to the station `fsid`.
pub open spec fn refers_to_station(recordings: Seq<Recording>, fsid: u32) -> bool {
    exists|i: int|
        0 <= i < recordings.len() && (#[trigger] recordings[i]).station_fsid == Some(fsid)
}

impl Drive {
    /// The programs and stations held are those that the recordings held refer
    /// to, as far as their objects describe one.
    pub open spec fn is_complete(self, held: Holdings) -> bool {
        &&& forall|fsid: u32| #[trigger]
            held.programs.contains_key(fsid) <==> refers_to_program(held.recordings, fsid)
                && self.object(fsid) is Some && program_of(self.object(fsid)->0) is Some
        &&& forall|fsid: u32| #[trigger]
            held.programs.contains_key(fsid) ==> Some(held.programs[fsid]) == program_of(
                self.object(fsid)->0,
            )
        &&& forall|fsid: u32| #[trigger]
            held.stations.contains_key(fsid) <==> refers_to_station(held.recordings, fsid)
                && self.object(fsid) is Some && station_of(self.object(fsid)->0) is Some
        &&& forall|fsid: u32| #[trigger]
            held.stations.contains_key(fsid) ==> Some(held.stations[fsid]) == station_of(
                self.object(fsid)->0,
            )
    }
}

proof fn lemma_references_grow(recordings: Seq<Recording>, recording: Recording, fsid: u32)
    ensures
        refers_to_program(recordings.push(recording), fsid) <==> refers_to_program(
            recordings,
            fsid,
        ) || recording.program_fsid == Some(fsid),
        refers_to_station(recordings.push(recording), fsid) <==> refers_to_station(
            recordings,
            fsid,
        ) || recording.station_fsid == Some(fsid),
{
    let more = recordings.push(recording);
    assert(more[recordings.len() as int] == recording);
    assert forall|i: int| 0 <= i < recordings.len() implies #[trigger] more[i] == recordings[i] by {
    }
    assert forall|i: int| 0 <= i < recordings.len() implies more[i] == #[trigger] recordings[i] by {
    }
}

proof fn lemma_adding_is_complete(drive: Drive, recording: Recording, held: Holdings)
    requires
        drive.is_complete(held),
    ensures
        drive.is_complete(drive.add_recording(recording, held)),
{
    let now = drive.add_recording(recording, held);
    assert forall|fsid: u32| #[trigger]
        now.programs.contains_key(fsid) <==> refers_to_program(now.recordings, fsid)
            && drive.object(fsid) is Some && program_of(drive.object(fsid)->0) is Some by {
        lemma_references_grow(held.recordings, recording, fsid);
        assert(held.programs.contains_key(fsid) <==> refers_to_program(held.recordings, fsid)
            && drive.object(fsid) is Some && program_of(drive.object(fsid)->0) is Some);
    }
    assert forall|fsid: u32| #[trigger]
        now.stations.contains_key(fsid) <==> refers_to_station(now.recordings, fsid)
            && drive.object(fsid) is Some && station_of(drive.object(fsid)->0) is Some by {
        lemma_references_grow(held.recordings, recording, fsid);
        assert(held.stations.contains_key(fsid) <==> refers_to_station(held.recordings, fsid)
            && drive.object(fsid) is Some && station_of(drive.object(fsid)->0) is Some);
    }
    assert forall|fsid: u32| #[trigger] now.programs.contains_key(fsid) implies Some(
        now.programs[fsid],
    ) == program_of(drive.object(fsid)->0) by {
        if held.programs.contains_key(fsid) {
            assert(Some(held.programs[fsid]) == program_of(drive.object(fsid)->0));
        }
    }
    assert forall|fsid: u32| #[trigger] now.stations.contains_key(fsid) implies Some(
        now.stations[fsid],
    ) == station_of(drive.object(fsid)->0) by {
        if held.stations.contains_key(fsid) {
            assert(Some(held.stations[fsid]) == station_of(drive.object(fsid)->0));
        }
    }
}

proof fn lemma_following_is_complete(drive: Drive, entries: Seq<Entry>, held: Holdings)
    requires
        drive.is_complete(held),
    ensures
        drive.is_complete(drive.follow(entries, held)),
    decreases entries.len(),
{
    if entries.len() > 0 {
        let fsid = entries[0].fsid;
        if drive.recording_at(fsid) is Some {
            lemma_adding_is_complete(drive, drive.recording_at(fsid)->0, held);
        }
        lemma_following_is_complete(
            drive,
            entries.drop_first(),
            drive.add_object(fsid, drive.object(fsid), held),
        );
    }
}

/// What an index leads to holds a program for an fsid exactly where one of its
/// recordings refers to it and its object describes one, and that program; and
/// stations likewise.
pub proof fn law_index_holds_what_its_recordings_refer_to(drive: Drive, fsid: u32, other: u32)
    requires
        drive.indexed(fsid) is Some,
    ensures
        ({
            let held = drive.indexed(fsid)->0;
            &&& held.programs.contains_key(other) <==> {
                &&& exists|i: int|
                    0 <= i < held.recordings.len() && (#[trigger] held.recordings[i]).program_fsid
                        == Some(other)
                &&& drive.object(other) is Some
                &&& program_of(drive.object(other)->0) is Some
            }
            &&& held.programs.contains_key(other) ==> Some(held.programs[other]) == program_of(
                drive.object(other)->0,
            )
            &&& held.stations.contains_key(other) <==> {
                &&& exists|i: int|
                    0 <= i < held.recordings.len() && (#[trigger] held.recordings[i]).station_fsid
                        == Some(other)
                &&& drive.object(other) is Some
                &&& station_of(drive.object(other)->0) is Some
            }
            &&& held.stations.contains_key(other) ==> Some(held.stations[other]) == station_of(
                drive.object(other)->0,
            )
        }),
{
    lemma_following_is_complete(drive, drive.directories[fsid], Holdings::empty());
}

} // verus!
