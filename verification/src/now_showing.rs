//! Finding recordings through the `/Recording` index directories.
//!
//! The search follows each recording of the index to its Program and Station. It
//! is much faster than looking at every inode, but depends on an intact directory
//! structure.
//!
//! A [`NowShowing`] search reads nothing itself. It says what it needs next (see
//! [`NowShowing::request`]) and is told what the drive answered.

use vstd::prelude::*;

use crate::index::{
    components, entry_named, entry_views, find_entry, if_any, index_path, index_path_text,
    path_components, with_program, with_station, DirectoryEntry, Drive, Entry, INDEX_PATHS,
};
use crate::object::{parsed_object, texts, MFSObject};
use crate::recordings::{
    program_info, recording_from_object, recording_of, station_info, Catalog, Holdings, Recording,
};

verus! {

broadcast use vstd::std_specs::hash::group_hash_axioms;

/// What a search is waiting for.
#[derive(Debug, Clone, Copy, PartialEq, Eq)]
pub enum Stage {
    /// A directory on the way to an index.
    Resolving,
    /// The entries of the index.
    Listing,
    /// The inode of an entry.
    FindingRecording,
    /// The data of an entry.
    ReadingRecording,
    /// The inode of the program of a recording.
    FindingProgram(Recording),
    /// The data of the program of a recording.
    ReadingProgram(Recording),
    /// The inode of the station of a recording.
    FindingStation(Recording),
    /// The data of the station of a recording.
    ReadingStation(Recording),
    /// Nothing.
    Finished,
}

/// What a search asks of the drive.
#[derive(Debug, Clone, Copy, PartialEq, Eq)]
pub enum Request {
    /// The entries of the directory with that fsid.
    ListDirectory(u32),
    /// The inode that a look-up of that fsid finds.
    FindInode(u32),
    /// The data of the inode just found for that fsid.
    ReadData(u32),
    /// Nothing more.
    Done,
}

/// A search for recordings under way.
pub struct NowShowing {
    pub root: u32,
    pub stage: Stage,
    /// The index being looked for.
    pub path: usize,
    /// The directory to list.
    pub fsid: u32,
    /// The components of the path, of which `depth` have been followed.
    pub components: Vec<String>,
    pub depth: usize,
    /// The entries of the index, of which `next` have been followed.
    pub entries: Vec<DirectoryEntry>,
    pub next: usize,
    pub catalog: Catalog,
}

/// Where a search stands: what a [`NowShowing`] holds.
pub struct SearchState {
    pub root: u32,
    pub stage: Stage,
    pub path: int,
    pub fsid: u32,
    pub components: Seq<Seq<char>>,
    pub depth: int,
    pub entries: Seq<Entry>,
    pub next: int,
    pub held: Holdings,
}

impl View for NowShowing {
    type V = SearchState;

    open spec fn view(&self) -> SearchState {
        SearchState {
            root: self.root,
            stage: self.stage,
            path: self.path as int,
            fsid: self.fsid,
            components: texts(self.components@),
            depth: self.depth as int,
            entries: entry_views(self.entries@),
            next: self.next as int,
            held: self.catalog@,
        }
    }
}

/// What is said of a search is said of all that it holds.
pub proof fn law_view_holds_everything(search: NowShowing)
    ensures
        search@.root == search.root,
        search@.stage == search.stage,
        search@.path == search.path,
        search@.fsid == search.fsid,
        search@.components == search.components@.map_values(|s: String| s@),
        search@.depth == search.depth,
        search@.entries == search.entries@.map_values(
            |e: DirectoryEntry| Entry { name: e.name@, fsid: e.fsid },
        ),
        search@.next == search.next,
        search@.held == search.catalog@,
{
    assert(search@.entries =~= search.entries@.map_values(
        |e: DirectoryEntry| Entry { name: e.name@, fsid: e.fsid },
    ));
}

impl SearchState {
    /// Whether the entries of an index are being followed.
    pub open spec fn is_following(self) -> bool {
        !(self.stage is Resolving || self.stage is Listing || self.stage is Finished)
    }

    /// What holds at every stage: there is something left of what is being followed,
    /// nothing is held before an index is found, and only what is missing is sought.
    pub open spec fn wf(self) -> bool {
        &&& self.is_following() ==> 0 <= self.next < self.entries.len()
        &&& match self.stage {
            Stage::Resolving => {
                &&& 0 <= self.path < INDEX_PATHS
                &&& 0 <= self.depth < self.components.len()
                &&& self.held == Holdings::empty()
            },
            Stage::Listing => self.held == Holdings::empty(),
            Stage::FindingProgram(recording) | Stage::ReadingProgram(recording) => {
                &&& recording.program_fsid is Some
                &&& !self.held.programs.contains_key(recording.program_fsid->0)
            },
            Stage::FindingStation(recording) | Stage::ReadingStation(recording) => {
                &&& recording.station_fsid is Some
                &&& !self.held.stations.contains_key(recording.station_fsid->0)
            },
            _ => true,
        }
    }

    /// What following the rest of the index adds to `held`.
    pub open spec fn and_the_rest(self, drive: Drive, held: Holdings) -> Option<Holdings> {
        if_any(drive.follow(self.entries.skip(self.next + 1), held))
    }

    /// What the search will have found on `drive` when it ends.
    pub open spec fn outcome(self, drive: Drive) -> Option<Holdings> {
        let held = self.held;
        match self.stage {
            Stage::Resolving => match drive.walk(
                self.fsid,
                self.components.skip(self.depth),
            ) {
                Some(fsid) => drive.indexed(fsid),
                None => drive.indexed_from(self.path + 1),
            },
            Stage::Listing => drive.indexed(self.fsid),
            Stage::FindingRecording => {
                let fsid = self.entries[self.next].fsid;
                self.and_the_rest(drive, drive.add_object(fsid, drive.object(fsid), held))
            },
            Stage::ReadingRecording => {
                let fsid = self.entries[self.next].fsid;
                self.and_the_rest(drive, drive.add_object(fsid, drive.object_in(fsid), held))
            },
            Stage::FindingProgram(recording) => self.and_the_rest(
                drive,
                drive.add_recording(recording, held),
            ),
            Stage::ReadingProgram(recording) => self.and_the_rest(
                drive,
                Holdings {
                    programs: with_program(
                        held.programs,
                        recording.program_fsid->0,
                        drive.object_in(recording.program_fsid->0),
                    ),
                    ..drive.add_recording(recording, held)
                },
            ),
            Stage::FindingStation(recording) => self.and_the_rest(
                drive,
                Holdings { programs: held.programs, ..drive.add_recording(recording, held) },
            ),
            Stage::ReadingStation(recording) => self.and_the_rest(
                drive,
                Holdings {
                    recordings: held.recordings.push(recording),
                    programs: held.programs,
                    stations: with_station(
                        held.stations,
                        recording.station_fsid->0,
                        drive.object_in(recording.station_fsid->0),
                    ),
                },
            ),
            Stage::Finished => if_any(held),
        }
    }

    /// How far the search is from its end: the stage, and what is left of the
    /// paths, the components and the entries.
    pub open spec fn distance(self) -> (nat, nat, nat) {
        let left = (self.entries.len() - self.next) as nat;
        match self.stage {
            Stage::Resolving => (
                2,
                (INDEX_PATHS - self.path) as nat,
                (self.components.len() - self.depth) as nat,
            ),
            Stage::Listing => (1, 0, 0),
            Stage::FindingRecording => (0, left, 6),
            Stage::ReadingRecording => (0, left, 5),
            Stage::FindingProgram(_) => (0, left, 4),
            Stage::ReadingProgram(_) => (0, left, 3),
            Stage::FindingStation(_) => (0, left, 2),
            Stage::ReadingStation(_) => (0, left, 1),
            Stage::Finished => (0, 0, 0),
        }
    }

    /// What the search needs next.
    pub open spec fn pending(self) -> Request {
        match self.stage {
            Stage::Resolving | Stage::Listing => Request::ListDirectory(self.fsid),
            Stage::FindingRecording => Request::FindInode(self.entries[self.next].fsid),
            Stage::ReadingRecording => Request::ReadData(self.entries[self.next].fsid),
            Stage::FindingProgram(recording) => Request::FindInode(recording.program_fsid->0),
            Stage::ReadingProgram(recording) => Request::ReadData(recording.program_fsid->0),
            Stage::FindingStation(recording) => Request::FindInode(recording.station_fsid->0),
            Stage::ReadingStation(recording) => Request::ReadData(recording.station_fsid->0),
            Stage::Finished => Request::Done,
        }
    }
}

/// Whether `a` is nearer the end than `b`.
pub open spec fn is_nearer(a: (nat, nat, nat), b: (nat, nat, nat)) -> bool {
    ||| a.0 < b.0
    ||| a.0 == b.0 && a.1 < b.1
    ||| a.0 == b.0 && a.1 == b.1 && a.2 < b.2
}
impl SearchState {
    /// Index number `k` is looked for.
    pub open spec fn trying(self, k: int) -> SearchState {
        if k < INDEX_PATHS {
            let components = path_components(index_path(k));
            SearchState {
                stage: if components.len() > 0 {
                    Stage::Resolving
                } else {
                    Stage::Listing
                },
                path: k,
                fsid: self.root,
                components,
                depth: 0,
                ..self
            }
        } else {
            SearchState { stage: Stage::Finished, ..self }
        }
    }

    /// The start of a search.
    pub open spec fn start(root: u32) -> SearchState {
        SearchState {
            root,
            stage: Stage::Finished,
            path: 0,
            fsid: root,
            components: Seq::empty(),
            depth: 0,
            entries: Seq::empty(),
            next: 0,
            held: Holdings::empty(),
        }.trying(0)
    }

    /// The entry is done with.
    pub open spec fn past_entry(self) -> SearchState {
        SearchState {
            stage: if self.next + 1 < self.entries.len() {
                Stage::FindingRecording
            } else {
                Stage::Finished
            },
            next: self.next + 1,
            ..self
        }
    }

    /// The recording and all it refers to have been read, as far as they can be.
    pub open spec fn accepting(self, recording: Recording) -> SearchState {
        SearchState {
            held: Holdings { recordings: self.held.recordings.push(recording), ..self.held },
            ..self
        }.past_entry()
    }

    /// The station of a recording is wanted, unless it is known or there is none.
    pub open spec fn seeking_station(self, recording: Recording) -> SearchState {
        match recording.station_fsid {
            Some(fsid) if !self.held.stations.contains_key(fsid) => SearchState {
                stage: Stage::FindingStation(recording),
                ..self
            },
            _ => self.accepting(recording),
        }
    }

    /// The program of a recording is wanted, unless it is known or there is none.
    pub open spec fn seeking_program(self, recording: Recording) -> SearchState {
        match recording.program_fsid {
            Some(fsid) if !self.held.programs.contains_key(fsid) => SearchState {
                stage: Stage::FindingProgram(recording),
                ..self
            },
            _ => self.seeking_station(recording),
        }
    }

    /// What follows once a directory has been listed, or could not be.
    pub open spec fn given_directory(self, answer: Option<Seq<Entry>>) -> SearchState {
        match (self.stage, answer) {
            (Stage::Resolving, Some(entries)) => match entry_named(
                entries,
                self.components[self.depth],
            ) {
                Some(fsid) => SearchState {
                    stage: if self.depth + 1 < self.components.len() {
                        Stage::Resolving
                    } else {
                        Stage::Listing
                    },
                    fsid,
                    depth: self.depth + 1,
                    ..self
                },
                None => self.trying(self.path + 1),
            },
            (Stage::Resolving, None) => self.trying(self.path + 1),
            (_, Some(entries)) => SearchState {
                stage: if entries.len() > 0 {
                    Stage::FindingRecording
                } else {
                    Stage::Finished
                },
                entries,
                next: 0,
                ..self
            },
            (_, None) => SearchState { stage: Stage::Finished, ..self },
        }
    }

    /// What follows once an inode has been looked up. One with another fsid than
    /// was asked for is as good as none.
    pub open spec fn given_inode(self, answer: Option<u32>) -> SearchState {
        match self.stage {
            Stage::FindingRecording => if answer == Some(self.entries[self.next].fsid) {
                SearchState { stage: Stage::ReadingRecording, ..self }
            } else {
                self.past_entry()
            },
            Stage::FindingProgram(recording) => if answer == recording.program_fsid {
                SearchState { stage: Stage::ReadingProgram(recording), ..self }
            } else {
                self.seeking_station(recording)
            },
            Stage::FindingStation(recording) => if answer == recording.station_fsid {
                SearchState { stage: Stage::ReadingStation(recording), ..self }
            } else {
                self.accepting(recording)
            },
            _ => self,
        }
    }

    /// What follows once data has been read, or could not be.
    pub open spec fn given_data(self, answer: Option<Seq<u8>>) -> SearchState {
        let object = match answer {
            Some(data) => Some(parsed_object(data)),
            None => None,
        };
        match self.stage {
            Stage::ReadingRecording => match object {
                Some(subobjects) => match recording_of(self.entries[self.next].fsid, subobjects) {
                    Some(recording) => self.seeking_program(recording),
                    None => self.past_entry(),
                },
                None => self.past_entry(),
            },
            Stage::ReadingProgram(recording) => SearchState {
                held: Holdings {
                    programs: with_program(self.held.programs, recording.program_fsid->0, object),
                    ..self.held
                },
                ..self
            }.seeking_station(recording),
            Stage::ReadingStation(recording) => SearchState {
                held: Holdings {
                    stations: with_station(self.held.stations, recording.station_fsid->0, object),
                    ..self.held
                },
                ..self
            }.accepting(recording),
            _ => self,
        }
    }
}

impl NowShowing {
    /// Whether this is a search that was started and told only what it asked for.
    pub open spec fn wf(self) -> bool {
        self@.wf()
    }

    fn try_path(&mut self, k: usize)
        ensures
            final(self)@ == old(self)@.trying(k as int),
    {
        if k < INDEX_PATHS {
            self.path = k;
            self.fsid = self.root;
            self.components = components(index_path_text(k));
            self.depth = 0;
            assert(texts(self.components@).len() == self.components@.len());
            if self.components.len() > 0 {
                self.stage = Stage::Resolving;
            } else {
                self.stage = Stage::Listing;
            }
        } else {
            self.stage = Stage::Finished;
        }
    }

    /// A search on a drive whose root directory is `root`.
    pub fn new(root: u32) -> (search: NowShowing)
        ensures
            search@ == SearchState::start(root),
            search.wf(),
    {
        let mut search = NowShowing {
            root,
            stage: Stage::Finished,
            path: 0,
            fsid: root,
            components: Vec::new(),
            depth: 0,
            entries: Vec::new(),
            next: 0,
            catalog: Catalog::new(),
        };
        assert(search@.components =~= Seq::<Seq<char>>::empty());
        assert(search@.entries =~= Seq::<Entry>::empty());
        search.try_path(0);
        search
    }

    /// What the search needs next. It has ended when that is nothing.
    pub fn request(&self) -> (request: Request)
        requires
            self.wf(),
        ensures
            request == self@.pending(),
    {
        match self.stage {
            Stage::Resolving | Stage::Listing => Request::ListDirectory(self.fsid),
            Stage::FindingRecording => Request::FindInode(self.entries[self.next].fsid),
            Stage::ReadingRecording => Request::ReadData(self.entries[self.next].fsid),
            Stage::FindingProgram(recording) => Request::FindInode(recording.program_fsid.unwrap()),
            Stage::ReadingProgram(recording) => Request::ReadData(recording.program_fsid.unwrap()),
            Stage::FindingStation(recording) => Request::FindInode(recording.station_fsid.unwrap()),
            Stage::ReadingStation(recording) => Request::ReadData(recording.station_fsid.unwrap()),
            Stage::Finished => Request::Done,
        }
    }

    /// Takes the entries of the directory that was asked for.
    pub fn take_directory(&mut self, answer: Option<Vec<DirectoryEntry>>)
        requires
            old(self).wf(),
            old(self)@.pending() is ListDirectory,
        ensures
            final(self)@ == old(self)@.given_directory(
                match answer {
                    Some(entries) => Some(entry_views(entries@)),
                    None => None,
                },
            ),
            final(self).wf(),
    {
        match answer {
            Some(entries) => if let Stage::Resolving = self.stage {
                let len: usize = self.components.len();
                assert(self@.components[self.depth as int] == self.components@[self.depth as int]@);
                match find_entry(&entries, &self.components[self.depth]) {
                    Some(fsid) => {
                        self.fsid = fsid;
                        self.depth = self.depth + 1;
                        if self.depth == len {
                            self.stage = Stage::Listing;
                        }
                    },
                    None => {
                        let k: usize = self.path + 1;
                        self.try_path(k);
                    },
                }
            } else {
                self.entries = entries;
                self.next = 0;
                if self.entries.len() == 0 {
                    self.stage = Stage::Finished;
                } else {
                    self.stage = Stage::FindingRecording;
                }
            },
            None => if let Stage::Resolving = self.stage {
                let k: usize = self.path + 1;
                self.try_path(k);
            } else {
                self.stage = Stage::Finished;
            },
        }
    }

    fn next_entry(&mut self)
        requires
            old(self).next < old(self).entries@.len(),
        ensures
            final(self)@ == old(self)@.past_entry(),
    {
        let len: usize = self.entries.len();
        self.next = self.next + 1;
        if self.next == len {
            self.stage = Stage::Finished;
        } else {
            self.stage = Stage::FindingRecording;
        }
    }

    fn accept(&mut self, recording: Recording)
        requires
            old(self).next < old(self).entries@.len(),
        ensures
            final(self)@ == old(self)@.accepting(recording),
    {
        self.catalog.recordings.push(recording);
        self.next_entry();
    }

    fn seek_station(&mut self, recording: Recording)
        requires
            old(self).next < old(self).entries@.len(),
        ensures
            final(self)@ == old(self)@.seeking_station(recording),
    {
        if let Some(fsid) = recording.station_fsid {
            if !self.catalog.stations.contains_key(&fsid) {
                self.stage = Stage::FindingStation(recording);
                return;
            }
        }
        self.accept(recording);
    }

    fn seek_program(&mut self, recording: Recording)
        requires
            old(self).next < old(self).entries@.len(),
        ensures
            final(self)@ == old(self)@.seeking_program(recording),
    {
        if let Some(fsid) = recording.program_fsid {
            if !self.catalog.programs.contains_key(&fsid) {
                self.stage = Stage::FindingProgram(recording);
                return;
            }
        }
        self.seek_station(recording);
    }

    /// Takes the fsid of the inode that the look-up found. One with another fsid
    /// than was asked for is passed over.
    pub fn take_inode(&mut self, answer: Option<u32>)
        requires
            old(self).wf(),
            old(self)@.pending() is FindInode,
        ensures
            final(self)@ == old(self)@.given_inode(answer),
            final(self).wf(),
    {
        match self.stage {
            Stage::FindingRecording => {
                let fsid: u32 = self.entries[self.next].fsid;
                if answer == Some(fsid) {
                    self.stage = Stage::ReadingRecording;
                } else {
                    self.next_entry();
                }
            },
            Stage::FindingProgram(recording) => {
                if answer == recording.program_fsid {
                    self.stage = Stage::ReadingProgram(recording);
                } else {
                    self.seek_station(recording);
                }
            },
            Stage::FindingStation(recording) => {
                if answer == recording.station_fsid {
                    self.stage = Stage::ReadingStation(recording);
                } else {
                    self.accept(recording);
                }
            },
            _ => {},
        }
    }

    /// Takes the data of the inode that was found.
    pub fn take_data(&mut self, answer: Option<Vec<u8>>)
        requires
            old(self).wf(),
            old(self)@.pending() is ReadData,
        ensures
            final(self)@ == old(self)@.given_data(
                match answer {
                    Some(data) => Some(data@),
                    None => None,
                },
            ),
            final(self).wf(),
    {
        let object = match answer {
            Some(data) => Some(MFSObject::parse(&data)),
            None => None,
        };
        let ghost held = self.catalog@;
        match self.stage {
            Stage::ReadingRecording => {
                let fsid: u32 = self.entries[self.next].fsid;
                let recording = match &object {
                    Some(object) => recording_from_object(fsid, object),
                    None => None,
                };
                match recording {
                    Some(recording) => self.seek_program(recording),
                    None => self.next_entry(),
                }
            },
            Stage::ReadingProgram(recording) => {
                let fsid: u32 = recording.program_fsid.unwrap();
                let program = match &object {
                    Some(object) => program_info(object),
                    None => None,
                };
                if let Some(program) = program {
                    self.catalog.programs.insert(fsid, program);
                    assert(self.catalog@.programs =~= held.programs.insert(fsid, program@));
                }
                self.seek_station(recording);
            },
            Stage::ReadingStation(recording) => {
                let fsid: u32 = recording.station_fsid.unwrap();
                let station = match &object {
                    Some(object) => station_info(object),
                    None => None,
                };
                if let Some(station) = station {
                    self.catalog.stations.insert(fsid, station);
                    assert(self.catalog@.stations =~= held.stations.insert(fsid, station@));
                }
                self.accept(recording);
            },
            _ => {},
        }
    }

    /// What a search that has ended found: nothing, or at least one recording.
    pub fn finish(self) -> (found: Option<Catalog>)
        requires
            self.wf(),
            self@.pending() is Done,
        ensures
            if_any(self@.held) == (match found {
                Some(catalog) => Some(catalog@),
                None => None,
            }),
            found is None <==> self.catalog.recordings@.len() == 0,
            found matches Some(catalog) ==> catalog == self.catalog,
    {
        if self.catalog.recordings.len() == 0 {
            None
        } else {
            Some(self.catalog)
        }
    }
}

impl SearchState {
    /// What follows once `drive` has given what the search needs.
    pub open spec fn answered(self, drive: Drive) -> SearchState {
        match self.pending() {
            Request::ListDirectory(fsid) => self.given_directory(
                if drive.directories.contains_key(fsid) {
                    Some(drive.directories[fsid])
                } else {
                    None
                },
            ),
            Request::FindInode(fsid) => self.given_inode(
                if drive.inodes.contains_key(fsid) {
                    Some(drive.inodes[fsid])
                } else {
                    None
                },
            ),
            Request::ReadData(fsid) => self.given_data(
                if drive.contents.contains_key(fsid) {
                    Some(drive.contents[fsid])
                } else {
                    None
                },
            ),
            Request::Done => self,
        }
    }

    /// Where the search ends when `drive` gives all that it needs.
    pub open spec fn ended(self, drive: Drive) -> SearchState
        decreases self.distance().0, self.distance().1, self.distance().2,
        when self.wf()
    {
        if self.pending() is Done {
            self
        } else {
            proof {
                law_answers_bring_the_end_nearer(self, drive);
            }
            self.answered(drive).ended(drive)
        }
    }
}

/// Every answer brings a search nearer its end, so that it ends on any drive.
pub proof fn law_answers_bring_the_end_nearer(state: SearchState, drive: Drive)
    requires
        state.wf(),
        state.pending() !is Done,
    ensures
        state.answered(drive).wf(),
        is_nearer(state.answered(drive).distance(), state.distance()),
{
}

proof fn lemma_trying_finds_the_rest(state: SearchState, drive: Drive, k: int)
    requires
        drive.root == state.root,
        state.held == Holdings::empty(),
        0 <= k <= INDEX_PATHS,
    ensures
        state.trying(k).outcome(drive) == drive.indexed_from(k),
{
    let components = path_components(index_path(k));
    assert(components.skip(0) =~= components);
}

proof fn lemma_past_entry_leaves_the_rest(state: SearchState, drive: Drive)
    requires
        0 <= state.next < state.entries.len(),
    ensures
        state.past_entry().outcome(drive) == state.and_the_rest(drive, state.held),
{
    let rest = state.entries.skip(state.next + 1);
    if rest.len() > 0 {
        assert(rest[0] == state.entries[state.next + 1]);
        assert(rest.drop_first() =~= state.entries.skip(state.next + 2));
    }
}

proof fn lemma_accepting(state: SearchState, drive: Drive, recording: Recording)
    requires
        0 <= state.next < state.entries.len(),
    ensures
        state.accepting(recording).outcome(drive) == state.and_the_rest(
            drive,
            (Holdings { recordings: state.held.recordings.push(recording), ..state.held }),
        ),
{
    let held = Holdings { recordings: state.held.recordings.push(recording), ..state.held };
    lemma_past_entry_leaves_the_rest(SearchState { held, ..state }, drive);
}

proof fn lemma_seeking_station(state: SearchState, drive: Drive, recording: Recording)
    requires
        0 <= state.next < state.entries.len(),
    ensures
        state.seeking_station(recording).outcome(drive) == state.and_the_rest(
            drive,
            (Holdings {
                programs: state.held.programs,
                ..drive.add_recording(recording, state.held)
            }),
        ),
{
    lemma_accepting(state, drive, recording);
}

proof fn lemma_seeking_program(state: SearchState, drive: Drive, recording: Recording)
    requires
        0 <= state.next < state.entries.len(),
    ensures
        state.seeking_program(recording).outcome(drive) == state.and_the_rest(
            drive,
            drive.add_recording(recording, state.held),
        ),
{
    lemma_seeking_station(state, drive, recording);
}

proof fn lemma_resolving_keeps_the_outcome(state: SearchState, drive: Drive)
    requires
        state.wf(),
        state.root == drive.root,
        state.stage is Resolving,
    ensures
        state.answered(drive).outcome(drive) == state.outcome(drive),
        state.answered(drive).root == drive.root,
{
    let rest = state.components.skip(state.depth);
    assert(rest[0] == state.components[state.depth]);
    assert(rest.drop_first() =~= state.components.skip(state.depth + 1));
    lemma_trying_finds_the_rest(state, drive, state.path + 1);
}

proof fn lemma_listing_keeps_the_outcome(state: SearchState, drive: Drive)
    requires
        state.wf(),
        state.root == drive.root,
        state.stage is Listing,
    ensures
        state.answered(drive).outcome(drive) == state.outcome(drive),
        state.answered(drive).root == drive.root,
{
    if drive.directories.contains_key(state.fsid) {
        let entries = drive.directories[state.fsid];
        if entries.len() > 0 {
            assert(entries.drop_first() =~= entries.skip(1));
        }
    }
}

proof fn lemma_finding_recording_keeps_the_outcome(state: SearchState, drive: Drive)
    requires
        state.wf(),
        state.root == drive.root,
        state.stage is FindingRecording,
    ensures
        state.answered(drive).outcome(drive) == state.outcome(drive),
        state.answered(drive).root == drive.root,
{
    lemma_past_entry_leaves_the_rest(state, drive);
}

proof fn lemma_reading_recording_keeps_the_outcome(state: SearchState, drive: Drive)
    requires
        state.wf(),
        state.root == drive.root,
        state.stage is ReadingRecording,
    ensures
        state.answered(drive).outcome(drive) == state.outcome(drive),
        state.answered(drive).root == drive.root,
{
    let fsid = state.entries[state.next].fsid;
    lemma_past_entry_leaves_the_rest(state, drive);
    if let Some(subobjects) = drive.object_in(fsid) {
        if let Some(recording) = recording_of(fsid, subobjects) {
            lemma_seeking_program(state, drive, recording);
        }
    }
}

proof fn lemma_finding_program_keeps_the_outcome(state: SearchState, drive: Drive)
    requires
        state.wf(),
        state.root == drive.root,
        state.stage is FindingProgram,
    ensures
        state.answered(drive).outcome(drive) == state.outcome(drive),
        state.answered(drive).root == drive.root,
{
    lemma_seeking_station(state, drive, state.stage->FindingProgram_0);
}

proof fn lemma_reading_program_keeps_the_outcome(state: SearchState, drive: Drive)
    requires
        state.wf(),
        state.root == drive.root,
        state.stage is ReadingProgram,
    ensures
        state.answered(drive).outcome(drive) == state.outcome(drive),
        state.answered(drive).root == drive.root,
{
    let recording = state.stage->ReadingProgram_0;
    let fsid = recording.program_fsid->0;
    let held = Holdings {
        programs: with_program(state.held.programs, fsid, drive.object_in(fsid)),
        ..state.held
    };
    lemma_seeking_station(SearchState { held, ..state }, drive, recording);
}

proof fn lemma_finding_station_keeps_the_outcome(state: SearchState, drive: Drive)
    requires
        state.wf(),
        state.root == drive.root,
        state.stage is FindingStation,
    ensures
        state.answered(drive).outcome(drive) == state.outcome(drive),
        state.answered(drive).root == drive.root,
{
    lemma_accepting(state, drive, state.stage->FindingStation_0);
}

proof fn lemma_reading_station_keeps_the_outcome(state: SearchState, drive: Drive)
    requires
        state.wf(),
        state.root == drive.root,
        state.stage is ReadingStation,
    ensures
        state.answered(drive).outcome(drive) == state.outcome(drive),
        state.answered(drive).root == drive.root,
{
    let recording = state.stage->ReadingStation_0;
    let fsid = recording.station_fsid->0;
    let held = Holdings {
        stations: with_station(state.held.stations, fsid, drive.object_in(fsid)),
        ..state.held
    };
    lemma_accepting(SearchState { held, ..state }, drive, recording);
}

/// No answer that `drive` gives changes what the search will have found on it.
#[verifier::spinoff_prover]
pub proof fn law_answers_keep_the_outcome(state: SearchState, drive: Drive)
    requires
        state.wf(),
        state.root == drive.root,
    ensures
        state.answered(drive).outcome(drive) == state.outcome(drive),
        state.answered(drive).root == drive.root,
{
    match state.stage {
        Stage::Resolving => lemma_resolving_keeps_the_outcome(state, drive),
        Stage::Listing => lemma_listing_keeps_the_outcome(state, drive),
        Stage::FindingRecording => lemma_finding_recording_keeps_the_outcome(state, drive),
        Stage::ReadingRecording => lemma_reading_recording_keeps_the_outcome(state, drive),
        Stage::FindingProgram(_) => lemma_finding_program_keeps_the_outcome(state, drive),
        Stage::ReadingProgram(_) => lemma_reading_program_keeps_the_outcome(state, drive),
        Stage::FindingStation(_) => lemma_finding_station_keeps_the_outcome(state, drive),
        Stage::ReadingStation(_) => lemma_reading_station_keeps_the_outcome(state, drive),
        Stage::Finished => {},
    }
}

proof fn lemma_ends_with_outcome(state: SearchState, drive: Drive)
    requires
        state.wf(),
        state.root == drive.root,
    ensures
        state.ended(drive).pending() is Done,
        if_any(state.ended(drive).held) == state.outcome(drive),
    decreases state.distance().0, state.distance().1, state.distance().2,
{
    if state.pending() !is Done {
        law_answers_bring_the_end_nearer(state, drive);
        law_answers_keep_the_outcome(state, drive);
        lemma_ends_with_outcome(state.answered(drive), drive);
    }
}

/// A search that is given what `drive` answers ends, and has then found the
/// recordings that the first index directory leads to.
pub proof fn law_search_finds_the_recordings(drive: Drive)
    ensures
        SearchState::start(drive.root).ended(drive).pending() is Done,
        if_any(SearchState::start(drive.root).ended(drive).held) == drive.recordings(),
{
    let start = SearchState::start(drive.root);
    let blank = SearchState {
        root: drive.root,
        stage: Stage::Finished,
        path: 0,
        fsid: drive.root,
        components: Seq::empty(),
        depth: 0,
        entries: Seq::empty(),
        next: 0,
        held: Holdings::empty(),
    };
    assert(start == blank.trying(0));
    lemma_trying_finds_the_rest(blank, drive, 0);
    lemma_ends_with_outcome(start, drive);
}

/// The states follow each other as `drive` gives what each of them needs.
pub open spec fn is_run(drive: Drive, states: Seq<SearchState>) -> bool {
    forall|k: int|
        0 <= k < states.len() - 1 ==> (match (#[trigger] states[k]).pending() {
            Request::ListDirectory(fsid) => states[k + 1] == states[k].given_directory(
                if drive.directories.contains_key(fsid) {
                    Some(drive.directories[fsid])
                } else {
                    None
                },
            ),
            Request::FindInode(fsid) => states[k + 1] == states[k].given_inode(
                if drive.inodes.contains_key(fsid) {
                    Some(drive.inodes[fsid])
                } else {
                    None
                },
            ),
            Request::ReadData(fsid) => states[k + 1] == states[k].given_data(
                if drive.contents.contains_key(fsid) {
                    Some(drive.contents[fsid])
                } else {
                    None
                },
            ),
            Request::Done => false,
        })
}

proof fn lemma_run_keeps_the_outcome(drive: Drive, states: Seq<SearchState>, k: int)
    requires
        0 <= k < states.len(),
        states[0] == SearchState::start(drive.root),
        is_run(drive, states),
    ensures
        states[k].wf(),
        states[k].root == drive.root,
        states[k].outcome(drive) == drive.recordings(),
    decreases k,
{
    if k == 0 {
        let blank = SearchState {
            root: drive.root,
            stage: Stage::Finished,
            path: 0,
            fsid: drive.root,
            components: Seq::empty(),
            depth: 0,
            entries: Seq::empty(),
            next: 0,
            held: Holdings::empty(),
        };
        assert(states[0] == blank.trying(0));
        lemma_trying_finds_the_rest(blank, drive, 0);
    } else {
        lemma_run_keeps_the_outcome(drive, states, k - 1);
        let before = states[k - 1];
        assert(before.pending() !is Done);
        assert(states[k] == before.answered(drive));
        law_answers_bring_the_end_nearer(before, drive);
        law_answers_keep_the_outcome(before, drive);
    }
}

/// However a search runs, given at each state what `drive` answers there, it has
/// found what the index of the drive leads to when it needs nothing more: the
/// recordings, programs and stations of [`Drive::recordings`], and none where
/// there are none.
pub proof fn law_every_run_finds_the_recordings(drive: Drive, states: Seq<SearchState>)
    requires
        states.len() > 0,
        states[0] == SearchState::start(drive.root),
        is_run(drive, states),
        states.last().pending() is Done,
    ensures
        states.last().held.recordings.len() == 0 ==> drive.recordings() is None,
        states.last().held.recordings.len() > 0 ==> drive.recordings() == Some(states.last().held),
{
    lemma_run_keeps_the_outcome(drive, states, states.len() - 1);
}

} // verus!
