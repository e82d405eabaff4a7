//! What is known of a recording, and how it is listed.
//!
//! A recording's metadata lives across several linked MFS database objects:
//!
//! ```text
//! Recording (obj_type 14)
//!   Showing (obj_type 7, stored inline as a subobject)
//!     Program (obj_type 3, referenced by fsid): Title, EpisodeTitle, ...
//!     Station (obj_type 5, referenced by fsid): CallSign, Name
//! ```
//!
//! Field ids (the `attr` byte on each attribute) come from `schema.txt`.

use std::collections::HashMap;

use vstd::prelude::*;

use crate::calendar::{shows_date, shows_date_time, tivo_date, tivo_date_time};
use crate::obj_type;
use crate::object::{first_subobject, MFSObject, Subobject};
use crate::order::{is_stable_sort, law_sort_keeps_elements, stable_sort, tied_with, Ranked};

verus! {

broadcast use vstd::std_specs::hash::group_hash_axioms;

// Program (obj_type 3) field ids.
pub const PROGRAM_TITLE: u8 = 17;

pub const PROGRAM_DESCRIPTION: u8 = 19;

pub const PROGRAM_MOVIE_YEAR: u8 = 22;

pub const PROGRAM_EPISODE_TITLE: u8 = 29;

pub const PROGRAM_ORIGINAL_AIR_DATE: u8 = 49;

pub const PROGRAM_SHORT_DESCRIPTION: u8 = 53;

// Station (obj_type 5) field ids.
pub const STATION_NAME: u8 = 17;

pub const STATION_CALL_SIGN: u8 = 18;

// Showing (obj_type 7) field ids.
pub const SHOWING_PROGRAM: u8 = 16;

pub const SHOWING_STATION: u8 = 17;

pub const SHOWING_DATE: u8 = 18;

pub const SHOWING_TIME: u8 = 19;

// Recording (obj_type 14) field ids.
pub const RECORDING_STREAM_FILE_SIZE: u8 = 54;

pub const TITLE_WIDTH: usize = 40;

pub const EPISODE_WIDTH: usize = 30;

pub const DESCRIPTION_WIDTH: usize = 60;

#[derive(Clone)]
pub struct ProgramInfo {
    pub title: Option<String>,
    pub episode_title: Option<String>,
    pub description: Option<String>,
    pub original_air_date: Option<u32>,
    pub movie_year: Option<u32>,
}

#[derive(Clone)]
pub struct StationInfo {
    pub call_sign: Option<String>,
    pub name: Option<String>,
}

#[derive(Debug, Clone, Copy, PartialEq, Eq)]
pub struct Recording {
    pub fsid: u32,
    pub program_fsid: Option<u32>,
    pub station_fsid: Option<u32>,
    pub date: Option<u32>,
    pub time: Option<u32>,
    pub stream_size: Option<u32>,
}

/// What a [`ProgramInfo`] holds.
pub struct Program {
    pub title: Option<Seq<char>>,
    pub episode_title: Option<Seq<char>>,
    pub description: Option<Seq<char>>,
    pub original_air_date: Option<u32>,
    pub movie_year: Option<u32>,
}

/// What a [`StationInfo`] holds.
pub struct Station {
    pub call_sign: Option<Seq<char>>,
    pub name: Option<Seq<char>>,
}

/// The text of a string that may be missing.
pub open spec fn text_if_any(s: Option<String>) -> Option<Seq<char>> {
    match s {
        Some(text) => Some(text@),
        None => None,
    }
}

impl View for ProgramInfo {
    type V = Program;

    open spec fn view(&self) -> Program {
        Program {
            title: text_if_any(self.title),
            episode_title: text_if_any(self.episode_title),
            description: text_if_any(self.description),
            original_air_date: self.original_air_date,
            movie_year: self.movie_year,
        }
    }
}

impl View for StationInfo {
    type V = Station;

    open spec fn view(&self) -> Station {
        Station { call_sign: text_if_any(self.call_sign), name: text_if_any(self.name) }
    }
}

impl Program {
    /// A program of which nothing is known.
    pub open spec fn unknown() -> Program {
        Program {
            title: None,
            episode_title: None,
            description: None,
            original_air_date: None,
            movie_year: None,
        }
    }
}

impl Station {
    /// A station of which nothing is known.
    pub open spec fn unknown() -> Station {
        Station { call_sign: None, name: None }
    }
}

impl Default for ProgramInfo {
    fn default() -> (info: Self)
        ensures
            info@ == Program::unknown(),
    {
        ProgramInfo {
            title: None,
            episode_title: None,
            description: None,
            original_air_date: None,
            movie_year: None,
        }
    }
}

impl Default for StationInfo {
    fn default() -> (info: Self)
        ensures
            info@ == Station::unknown(),
    {
        StationInfo { call_sign: None, name: None }
    }
}

/// The first of the two that is there.
pub open spec fn first_known<T>(a: Option<T>, b: Option<T>) -> Option<T> {
    if a is Some {
        a
    } else {
        b
    }
}

/// The program that an object describes: that of its first Program subobject.
/// The short description stands in for a missing description.
pub open spec fn program_of(object: Seq<Subobject>) -> Option<Program> {
    match first_subobject(object, obj_type::PROGRAM) {
        Some(program) => Some(
            Program {
                title: program.string(PROGRAM_TITLE),
                episode_title: program.string(PROGRAM_EPISODE_TITLE),
                description: first_known(
                    program.string(PROGRAM_DESCRIPTION),
                    program.string(PROGRAM_SHORT_DESCRIPTION),
                ),
                original_air_date: program.integer(PROGRAM_ORIGINAL_AIR_DATE),
                movie_year: program.integer(PROGRAM_MOVIE_YEAR),
            },
        ),
        None => None,
    }
}

/// The station that an object describes: that of its first Station subobject.
pub open spec fn station_of(object: Seq<Subobject>) -> Option<Station> {
    match first_subobject(object, obj_type::STATION) {
        Some(station) => Some(
            Station {
                call_sign: station.string(STATION_CALL_SIGN),
                name: station.string(STATION_NAME),
            },
        ),
        None => None,
    }
}

/// The recording that the object `fsid` describes: that of its first Recording
/// subobject, with what its first Showing subobject, if any, adds.
pub open spec fn recording_of(fsid: u32, object: Seq<Subobject>) -> Option<Recording> {
    match first_subobject(object, obj_type::RECORDING) {
        Some(recording) => {
            let stream_size = recording.integer(RECORDING_STREAM_FILE_SIZE);
            match first_subobject(object, obj_type::SHOWING) {
                Some(showing) => Some(
                    Recording {
                        fsid,
                        program_fsid: showing.object_fsid(SHOWING_PROGRAM),
                        station_fsid: showing.object_fsid(SHOWING_STATION),
                        date: showing.integer(SHOWING_DATE),
                        time: showing.integer(SHOWING_TIME),
                        stream_size,
                    },
                ),
                None => Some(
                    Recording {
                        fsid,
                        program_fsid: None,
                        station_fsid: None,
                        date: None,
                        time: None,
                        stream_size,
                    },
                ),
            }
        },
        None => None,
    }
}

proof fn lemma_first_subobject(object: Seq<Subobject>, obj_type: u16, i: int)
    requires
        0 <= i < object.len(),
        object[i].obj_type == obj_type,
        forall|j: int| 0 <= j < i ==> (#[trigger] object[j]).obj_type != obj_type,
    ensures
        first_subobject(object, obj_type) == Some(object[i]),
    decreases i,
{
    if i > 0 {
        assert(object[0].obj_type != obj_type);
        let rest = object.drop_first();
        assert forall|j: int| 0 <= j < i - 1 implies (#[trigger] rest[j]).obj_type != obj_type by {
            assert(rest[j] == object[j + 1]);
        }
        lemma_first_subobject(rest, obj_type, i - 1);
    }
}

proof fn lemma_no_subobject(object: Seq<Subobject>, obj_type: u16)
    requires
        forall|j: int| 0 <= j < object.len() ==> (#[trigger] object[j]).obj_type != obj_type,
    ensures
        first_subobject(object, obj_type) is None,
    decreases object.len(),
{
    if object.len() > 0 {
        let rest = object.drop_first();
        assert(object[0].obj_type != obj_type);
        assert forall|j: int| 0 <= j < rest.len() implies (#[trigger] rest[j]).obj_type
            != obj_type by {
            assert(rest[j] == object[j + 1]);
        }
        lemma_no_subobject(rest, obj_type);
    }
}

/// A program comes from the first subobject of type 3: its title is field 17, its
/// episode title field 29, its description field 19 or, without that, 53, its
/// original air date field 49 and its year field 22. Without such a subobject
/// there is no program.
pub proof fn law_program_fields_are_those_of_the_schema(object: Seq<Subobject>)
    ensures
        forall|i: int|
            0 <= i < object.len() && (#[trigger] object[i]).obj_type == 3 && (forall|j: int|
                0 <= j < i ==> (#[trigger] object[j]).obj_type != 3) ==> {
                &&& program_of(object) matches Some(program)
                &&& program.title == object[i].string(17)
                &&& program.episode_title == object[i].string(29)
                &&& object[i].string(19) is Some ==> program.description == object[i].string(19)
                &&& object[i].string(19) is None ==> program.description == object[i].string(53)
                &&& program.original_air_date == object[i].integer(49)
                &&& program.movie_year == object[i].integer(22)
            },
        (forall|i: int| 0 <= i < object.len() ==> (#[trigger] object[i]).obj_type != 3)
            ==> program_of(object) is None,
{
    assert forall|i: int|
        0 <= i < object.len() && (#[trigger] object[i]).obj_type == 3 && (forall|j: int|
            0 <= j < i ==> (#[trigger] object[j]).obj_type != 3) implies {
        &&& program_of(object) matches Some(program)
        &&& program.title == object[i].string(17)
        &&& program.episode_title == object[i].string(29)
        &&& object[i].string(19) is Some ==> program.description == object[i].string(19)
        &&& object[i].string(19) is None ==> program.description == object[i].string(53)
        &&& program.original_air_date == object[i].integer(49)
        &&& program.movie_year == object[i].integer(22)
    } by {
        lemma_first_subobject(object, 3, i);
    }
    if forall|i: int| 0 <= i < object.len() ==> (#[trigger] object[i]).obj_type != 3 {
        lemma_no_subobject(object, 3);
    }
}

/// A station comes from the first subobject of type 5: its call sign is field 18
/// and its name field 17. Without such a subobject there is no station.
pub proof fn law_station_fields_are_those_of_the_schema(object: Seq<Subobject>)
    ensures
        forall|i: int|
            0 <= i < object.len() && (#[trigger] object[i]).obj_type == 5 && (forall|j: int|
                0 <= j < i ==> (#[trigger] object[j]).obj_type != 5) ==> {
                &&& station_of(object) matches Some(station)
                &&& station.call_sign == object[i].string(18)
                &&& station.name == object[i].string(17)
            },
        (forall|i: int| 0 <= i < object.len() ==> (#[trigger] object[i]).obj_type != 5)
            ==> station_of(object) is None,
{
    assert forall|i: int|
        0 <= i < object.len() && (#[trigger] object[i]).obj_type == 5 && (forall|j: int|
            0 <= j < i ==> (#[trigger] object[j]).obj_type != 5) implies {
        &&& station_of(object) matches Some(station)
        &&& station.call_sign == object[i].string(18)
        &&& station.name == object[i].string(17)
    } by {
        lemma_first_subobject(object, 5, i);
    }
    if forall|i: int| 0 <= i < object.len() ==> (#[trigger] object[i]).obj_type != 5 {
        lemma_no_subobject(object, 5);
    }
}

/// A recording comes from the first subobject of type 14, whose field 54 is its
/// stream size. Its program, station, date and time are fields 16, 17, 18 and 19
/// of the first subobject of type 7; without one they are not known. Without a
/// subobject of type 14 there is no recording.
pub proof fn law_recording_fields_are_those_of_the_schema(fsid: u32, object: Seq<Subobject>)
    ensures
        forall|i: int|
            0 <= i < object.len() && (#[trigger] object[i]).obj_type == 14 && (forall|j: int|
                0 <= j < i ==> (#[trigger] object[j]).obj_type != 14) ==> {
                &&& recording_of(fsid, object) matches Some(recording)
                &&& recording.fsid == fsid
                &&& recording.stream_size == object[i].integer(54)
            },
        recording_of(fsid, object) matches Some(recording) ==> {
            &&& forall|i: int|
                0 <= i < object.len() && (#[trigger] object[i]).obj_type == 7 && (forall|j: int|
                    0 <= j < i ==> (#[trigger] object[j]).obj_type != 7) ==> {
                    &&& recording.program_fsid == object[i].object_fsid(16)
                    &&& recording.station_fsid == object[i].object_fsid(17)
                    &&& recording.date == object[i].integer(18)
                    &&& recording.time == object[i].integer(19)
                }
            &&& (forall|i: int| 0 <= i < object.len() ==> (#[trigger] object[i]).obj_type != 7) ==> {
                &&& recording.program_fsid is None && recording.station_fsid is None
                &&& recording.date is None && recording.time is None
            }
        },
        (forall|i: int| 0 <= i < object.len() ==> (#[trigger] object[i]).obj_type != 14)
            ==> recording_of(fsid, object) is None,
{
    assert forall|i: int|
        0 <= i < object.len() && (#[trigger] object[i]).obj_type == 14 && (forall|j: int|
            0 <= j < i ==> (#[trigger] object[j]).obj_type != 14) implies {
        &&& recording_of(fsid, object) matches Some(recording)
        &&& recording.fsid == fsid
        &&& recording.stream_size == object[i].integer(54)
    } by {
        lemma_first_subobject(object, 14, i);
    }
    if forall|i: int| 0 <= i < object.len() ==> (#[trigger] object[i]).obj_type != 14 {
        lemma_no_subobject(object, 14);
    }
    if let Some(recording) = recording_of(fsid, object) {
        assert forall|i: int|
            0 <= i < object.len() && (#[trigger] object[i]).obj_type == 7 && (forall|j: int|
                0 <= j < i ==> (#[trigger] object[j]).obj_type != 7) implies {
            &&& recording.program_fsid == object[i].object_fsid(16)
            &&& recording.station_fsid == object[i].object_fsid(17)
            &&& recording.date == object[i].integer(18)
            &&& recording.time == object[i].integer(19)
        } by {
            lemma_first_subobject(object, 7, i);
        }
        if forall|i: int| 0 <= i < object.len() ==> (#[trigger] object[i]).obj_type != 7 {
            lemma_no_subobject(object, 7);
        }
    }
}

/// The program that an object describes.
pub fn program_info(object: &MFSObject) -> (info: Option<ProgramInfo>)
    ensures
        program_of(object@) == (match info {
            Some(i) => Some(i@),
            None => None,
        }),
{
    match object.first_of_type(obj_type::PROGRAM) {
        Some(program) => {
            let description = match program.string(PROGRAM_DESCRIPTION) {
                Some(text) => Some(text),
                None => program.string(PROGRAM_SHORT_DESCRIPTION),
            };
            Some(
                ProgramInfo {
                    title: program.string(PROGRAM_TITLE),
                    episode_title: program.string(PROGRAM_EPISODE_TITLE),
                    description,
                    original_air_date: program.integer(PROGRAM_ORIGINAL_AIR_DATE),
                    movie_year: program.integer(PROGRAM_MOVIE_YEAR),
                },
            )
        },
        None => None,
    }
}

/// The station that an object describes.
pub fn station_info(object: &MFSObject) -> (info: Option<StationInfo>)
    ensures
        station_of(object@) == (match info {
            Some(i) => Some(i@),
            None => None,
        }),
{
    match object.first_of_type(obj_type::STATION) {
        Some(station) => Some(
            StationInfo {
                call_sign: station.string(STATION_CALL_SIGN),
                name: station.string(STATION_NAME),
            },
        ),
        None => None,
    }
}

/// Build a `Recording` from an object that contains a Recording subobject. The
/// Showing is stored inline, so its Program/Station references and air time come
/// from the same buffer.
pub fn recording_from_object(fsid: u32, object: &MFSObject) -> (recording: Option<Recording>)
    ensures
        recording == recording_of(fsid, object@),
{
    match object.first_of_type(obj_type::RECORDING) {
        Some(recording) => {
            let stream_size = recording.integer(RECORDING_STREAM_FILE_SIZE);
            match object.first_of_type(obj_type::SHOWING) {
                Some(showing) => Some(
                    Recording {
                        fsid,
                        program_fsid: showing.object_fsid(SHOWING_PROGRAM),
                        station_fsid: showing.object_fsid(SHOWING_STATION),
                        date: showing.integer(SHOWING_DATE),
                        time: showing.integer(SHOWING_TIME),
                        stream_size,
                    },
                ),
                None => Some(
                    Recording {
                        fsid,
                        program_fsid: None,
                        station_fsid: None,
                        date: None,
                        time: None,
                        stream_size,
                    },
                ),
            }
        },
        None => None,
    }
}

/// `text` cut to `max` characters, the last of which marks the cut.
pub open spec fn truncated(text: Seq<char>, max: nat) -> Seq<char> {
    if text.len() > max {
        text.take(if max > 0 {
            max - 1
        } else {
            0
        }).push('\u{2026}')
    } else {
        text
    }
}

/// Cuts `text` to `max` characters, the last of which is then an ellipsis.
pub fn truncate(text: &str, max: usize) -> (cut: String)
    ensures
        cut@ == truncated(text@, max as nat),
        text@.len() <= max ==> cut@ == text@,
        text@.len() > max > 0 ==> cut@ == text@.take(max - 1) + seq!['\u{2026}'],
        text@.len() > max == 0 ==> cut@ == seq!['\u{2026}'],
{
    if text.unicode_len() > max {
        let keep: usize = if max > 0 {
            max - 1
        } else {
            0
        };
        let mut cut = text.substring_char(0, keep).to_owned();
        cut.push('\u{2026}');
        assert(text@.subrange(0, keep as int) =~= text@.take(keep as int));
        assert(cut@ =~= text@.take(keep as int) + seq!['\u{2026}']);
        assert(max == 0 ==> cut@ =~= seq!['\u{2026}']);
        cut
    } else {
        text.to_owned()
    }
}

/// Cut text fits, where there is room for the mark of the cut, and is not cut
/// again. Text that fits is left as it is.
pub proof fn law_truncated_text_fits(text: Seq<char>, max: nat)
    ensures
        0 < max ==> truncated(text, max).len() <= max,
        truncated(truncated(text, max), max) == truncated(text, max),
        text.len() <= max ==> truncated(text, max) == text,
        0 < max && text.len() > max ==> truncated(text, max) != text,
        text.len() > max ==> truncated(text, max).last() == '\u{2026}',
        text.len() > max ==> truncated(text, max).drop_last().is_prefix_of(text),
        text.len() > max > 0 ==> truncated(text, max).len() == max,
{
    if text.len() > max {
        let kept = if max > 0 {
            max - 1
        } else {
            0
        };
        assert(truncated(text, max).drop_last() =~= text.take(kept));
        if max == 0 {
            assert(truncated(truncated(text, max), max) =~= truncated(text, max));
        }
    }
}

/// A missing number comes before every number.
pub open spec fn rank(n: Option<u32>) -> int {
    match n {
        Some(v) => v as int,
        None => -1,
    }
}

fn later(a: Option<u32>, b: Option<u32>) -> (r: bool)
    ensures
        r == (rank(a) > rank(b)),
{
    match (a, b) {
        (Some(x), Some(y)) => x > y,
        (Some(_), None) => true,
        (None, _) => false,
    }
}

impl Ranked for Recording {
    /// The later date and time first; at the same time, the lower fsid first.
    open spec fn leads(self, other: Self) -> bool {
        ||| rank(self.date) > rank(other.date)
        ||| rank(self.date) == rank(other.date) && rank(self.time) > rank(other.time)
        ||| rank(self.date) == rank(other.date) && rank(self.time) == rank(other.time) && self.fsid
            <= other.fsid
    }

    proof fn leads_is_total(a: Self, b: Self) {
    }

    proof fn leads_is_transitive(a: Self, b: Self, c: Self) {
    }

    fn check_leads(&self, other: &Self) -> (r: bool) {
        if later(self.date, other.date) {
            true
        } else if later(other.date, self.date) {
            false
        } else if later(self.time, other.time) {
            true
        } else if later(other.time, self.time) {
            false
        } else {
            self.fsid <= other.fsid
        }
    }
}

/// Sorted recordings are the same recordings. Of any two the one with the later
/// date comes first; on the same date the one with the later time; at the same
/// time the one with the lower fsid. One without a date, or on the same date
/// without a time, never comes before one that has it.
pub proof fn law_sorted_recordings_are_most_recent_first(
    recordings: Seq<Recording>,
    sorted: Seq<Recording>,
)
    requires
        is_stable_sort(recordings, sorted),
    ensures
        sorted.len() == recordings.len(),
        sorted.to_multiset() == recordings.to_multiset(),
        forall|i: int, j: int|
            0 <= i < j < sorted.len() ==> {
                let (a, b) = (#[trigger] sorted[i], #[trigger] sorted[j]);
                &&& b.date is Some ==> a.date is Some && a.date->0 >= b.date->0
                &&& a.date == b.date && b.time is Some ==> a.time is Some && a.time->0 >= b.time->0
                &&& a.date == b.date && a.time == b.time ==> a.fsid <= b.fsid
            },
{
    law_sort_keeps_elements(recordings, sorted);
    assert forall|i: int, j: int| 0 <= i < j < sorted.len() implies {
        let (a, b) = (#[trigger] sorted[i], #[trigger] sorted[j]);
        &&& b.date is Some ==> a.date is Some && a.date->0 >= b.date->0
        &&& a.date == b.date && b.time is Some ==> a.time is Some && a.time->0 >= b.time->0
        &&& a.date == b.date && a.time == b.time ==> a.fsid <= b.fsid
    } by {
        assert(sorted[i].leads(sorted[j]));
    }
}

/// Recordings of the same date, time and fsid stay in the order in which they
/// were.
pub proof fn law_sorting_keeps_the_order_of_equals(
    recordings: Seq<Recording>,
    sorted: Seq<Recording>,
    date: Option<u32>,
    time: Option<u32>,
    fsid: u32,
)
    requires
        is_stable_sort(recordings, sorted),
    ensures
        sorted.filter(|r: Recording| r.date == date && r.time == time && r.fsid == fsid)
            == recordings.filter(
            |r: Recording| r.date == date && r.time == time && r.fsid == fsid,
        ),
{
    let key = Recording {
        fsid,
        program_fsid: None,
        station_fsid: None,
        date,
        time,
        stream_size: None,
    };
    let alike = |r: Recording| r.date == date && r.time == time && r.fsid == fsid;
    let tied = |r: Recording| r.leads(key) && key.leads(r);
    assert(alike =~= tied);
    assert(tied_with(sorted, key) == tied_with(recordings, key));
}

/// Sorts recordings, the most recent first.
pub fn sort_recordings(recordings: Vec<Recording>) -> (sorted: Vec<Recording>)
    ensures
        is_stable_sort(recordings@, sorted@),
        sorted@.to_multiset() == recordings@.to_multiset(),
        forall|i: int, j: int|
            0 <= i < j < sorted@.len() ==> {
                let (a, b) = (#[trigger] sorted@[i], #[trigger] sorted@[j]);
                &&& b.date is Some ==> a.date is Some && a.date->0 >= b.date->0
                &&& a.date == b.date && b.time is Some ==> a.time is Some && a.time->0 >= b.time->0
                &&& a.date == b.date && a.time == b.time ==> a.fsid <= b.fsid
            },
{
    let ghost all = recordings@;
    let sorted = stable_sort(recordings);
    proof {
        law_sorted_recordings_are_most_recent_first(all, sorted@);
    }
    sorted
}

/// The recordings found on a drive, and the programs and stations they refer to,
/// by fsid.
pub struct Catalog {
    pub recordings: Vec<Recording>,
    pub programs: HashMap<u32, ProgramInfo>,
    pub stations: HashMap<u32, StationInfo>,
}

/// What a [`Catalog`] holds.
pub struct Holdings {
    pub recordings: Seq<Recording>,
    pub programs: Map<u32, Program>,
    pub stations: Map<u32, Station>,
}

impl View for Catalog {
    type V = Holdings;

    open spec fn view(&self) -> Holdings {
        Holdings {
            recordings: self.recordings@,
            programs: self.programs@.map_values(|p: ProgramInfo| p@),
            stations: self.stations@.map_values(|s: StationInfo| s@),
        }
    }
}

impl Holdings {
    pub open spec fn empty() -> Holdings {
        Holdings { recordings: Seq::empty(), programs: Map::empty(), stations: Map::empty() }
    }

    /// The program of a recording; unknown where its object was not found.
    pub open spec fn program(self, recording: Recording) -> Program {
        match recording.program_fsid {
            Some(fsid) if self.programs.contains_key(fsid) => self.programs[fsid],
            _ => Program::unknown(),
        }
    }

    /// The station of a recording; unknown where its object was not found.
    pub open spec fn station(self, recording: Recording) -> Station {
        match recording.station_fsid {
            Some(fsid) if self.stations.contains_key(fsid) => self.stations[fsid],
            _ => Station::unknown(),
        }
    }
}

/// What is said of a program, a station or a catalog is said of all that it holds.
pub proof fn law_views_hold_everything(
    program: ProgramInfo,
    station: StationInfo,
    catalog: Catalog,
    fsid: u32,
)
    ensures
        program@.title == (match program.title {
            Some(text) => Some(text@),
            None => None,
        }),
        program@.episode_title == (match program.episode_title {
            Some(text) => Some(text@),
            None => None,
        }),
        program@.description == (match program.description {
            Some(text) => Some(text@),
            None => None,
        }),
        program@.original_air_date == program.original_air_date,
        program@.movie_year == program.movie_year,
        station@.call_sign == (match station.call_sign {
            Some(text) => Some(text@),
            None => None,
        }),
        station@.name == (match station.name {
            Some(text) => Some(text@),
            None => None,
        }),
        catalog@.recordings == catalog.recordings@,
        catalog@.programs.contains_key(fsid) <==> catalog.programs@.contains_key(fsid),
        catalog.programs@.contains_key(fsid) ==> catalog@.programs[fsid]
            == catalog.programs@[fsid]@,
        catalog@.stations.contains_key(fsid) <==> catalog.stations@.contains_key(fsid),
        catalog.stations@.contains_key(fsid) ==> catalog@.stations[fsid]
            == catalog.stations@[fsid]@,
{
}

/// A recording as it is listed.
pub struct RecordingRow {
    pub fsid: u32,
    pub title: String,
    pub episode: String,
    pub recorded: String,
    pub channel: String,
    pub original_air_date: String,
    pub description: String,
}

/// The text, or `fallback` where there is none.
pub open spec fn text_or(text: Option<Seq<char>>, fallback: Seq<char>) -> Seq<char> {
    match text {
        Some(t) => t,
        None => fallback,
    }
}

impl RecordingRow {
    /// Whether this is the row of `recording`.
    pub open spec fn lists(self, recording: Recording, holdings: Holdings) -> bool {
        let program = holdings.program(recording);
        let station = holdings.station(recording);
        let none = Seq::<char>::empty();
        &&& self.fsid == recording.fsid
        &&& self.title@ == truncated(text_or(program.title, "<unknown>"@), TITLE_WIDTH as nat)
        &&& self.episode@ == truncated(text_or(program.episode_title, none), EPISODE_WIDTH as nat)
        &&& shows_date_time(recording.date, recording.time, self.recorded@)
        &&& self.channel@ == text_or(first_known(station.call_sign, station.name), none)
        &&& shows_date(program.original_air_date, self.original_air_date@)
        &&& self.description@ == truncated(
            text_or(program.description, none),
            DESCRIPTION_WIDTH as nat,
        )
    }
}

/// A row shows the fsid of its recording, when it was recorded, and all that is
/// held of its program and its station, found by the references of the recording.
/// Long text is cut to its column; of a station the call sign is shown, or without
/// one the name.
pub proof fn law_row_shows_what_is_held(row: RecordingRow, recording: Recording, held: Holdings)
    requires
        row.lists(recording, held),
    ensures
        row.fsid == recording.fsid,
        shows_date_time(recording.date, recording.time, row.recorded@),
        forall|fsid: u32|
            recording.program_fsid == Some(fsid) && #[trigger] held.programs.contains_key(fsid) ==> {
            let program = held.programs[fsid];
            &&& (program.title matches Some(t) ==> {
                &&& t.len() <= 40 ==> row.title@ == t
                &&& t.len() > 40 ==> row.title@ == t.take(39) + seq!['\u{2026}']
            })
            &&& program.title is None ==> row.title@ == "<unknown>"@
            &&& (program.episode_title matches Some(t) ==> {
                &&& t.len() <= 30 ==> row.episode@ == t
                &&& t.len() > 30 ==> row.episode@ == t.take(29) + seq!['\u{2026}']
            })
            &&& program.episode_title is None ==> row.episode@.len() == 0
            &&& (program.description matches Some(t) ==> {
                &&& t.len() <= 60 ==> row.description@ == t
                &&& t.len() > 60 ==> row.description@ == t.take(59) + seq!['\u{2026}']
            })
            &&& program.description is None ==> row.description@.len() == 0
            &&& shows_date(program.original_air_date, row.original_air_date@)
        },
        recording.program_fsid is None || !held.programs.contains_key(recording.program_fsid->0) ==> {
            &&& row.title@ == "<unknown>"@
            &&& row.episode@.len() == 0 && row.description@.len() == 0
            &&& row.original_air_date@.len() == 0
        },
        forall|fsid: u32|
            recording.station_fsid == Some(fsid) && #[trigger] held.stations.contains_key(fsid) ==> {
            let station = held.stations[fsid];
            &&& station.call_sign matches Some(t) ==> row.channel@ == t
            &&& station.call_sign is None ==> (station.name matches Some(t) ==> row.channel@ == t)
            &&& station.call_sign is None && station.name is None ==> row.channel@.len() == 0
        },
        recording.station_fsid is None || !held.stations.contains_key(recording.station_fsid->0)
            ==> row.channel@.len() == 0,
{
    reveal_strlit("<unknown>");
    assert forall|t: Seq<char>, w: int| 0 < w && t.len() > w implies #[trigger] t.take(w - 1).push(
        '\u{2026}',
    ) == t.take(w - 1) + seq!['\u{2026}'] by {
        assert(t.take(w - 1).push('\u{2026}') =~= t.take(w - 1) + seq!['\u{2026}']);
    }
}

fn or_fallback<'a>(text: &'a Option<String>, fallback: &'a str) -> (r: &'a str)
    ensures
        r@ == text_or(text_if_any(*text), fallback@),
{
    match text {
        Some(t) => t.as_str(),
        None => fallback,
    }
}

impl Catalog {
    pub fn new() -> (catalog: Catalog)
        ensures
            catalog@ == Holdings::empty(),
    {
        let catalog = Catalog {
            recordings: Vec::new(),
            programs: HashMap::new(),
            stations: HashMap::new(),
        };
        assert(catalog@.programs =~= Map::<u32, Program>::empty());
        assert(catalog@.stations =~= Map::<u32, Station>::empty());
        catalog
    }

    /// The row of a recording.
    pub fn row(&self, recording: &Recording) -> (row: RecordingRow)
        ensures
            row.lists(*recording, self@),
            row.fsid == recording.fsid,
            shows_date_time(recording.date, recording.time, row.recorded@),
            match recording.program_fsid {
                Some(fsid) if self.programs@.contains_key(fsid) => {
                    let program = self.programs@[fsid];
                    &&& (program.title matches Some(t) ==> {
                            &&& t@.len() <= 40 ==> row.title@ == t@
                            &&& t@.len() > 40 ==> row.title@ == t@.take(39) + seq!['\u{2026}']
                        })
                    &&& program.title is None ==> row.title@ == "<unknown>"@
                    &&& (program.episode_title matches Some(t) ==> {
                            &&& t@.len() <= 30 ==> row.episode@ == t@
                            &&& t@.len() > 30 ==> row.episode@ == t@.take(29) + seq!['\u{2026}']
                        })
                    &&& program.episode_title is None ==> row.episode@.len() == 0
                    &&& (program.description matches Some(t) ==> {
                            &&& t@.len() <= 60 ==> row.description@ == t@
                            &&& t@.len() > 60 ==> row.description@ == t@.take(59) + seq!['\u{2026}']
                        })
                    &&& program.description is None ==> row.description@.len() == 0
                    &&& shows_date(program.original_air_date, row.original_air_date@)
                },
                _ => {
                    &&& row.title@ == "<unknown>"@
                    &&& row.episode@.len() == 0
                    &&& row.description@.len() == 0
                    &&& row.original_air_date@.len() == 0
                },
            },
            match recording.station_fsid {
                Some(fsid) if self.stations@.contains_key(fsid) => {
                    let station = self.stations@[fsid];
                    &&& station.call_sign matches Some(t) ==> row.channel@ == t@
                    &&& station.call_sign is None ==> (station.name matches Some(t) ==> row.channel@
                        == t@)
                    &&& station.call_sign is None && station.name is None ==> row.channel@.len()
                        == 0
                },
                _ => row.channel@.len() == 0,
            },
    {
        proof {
            reveal_strlit("");
            reveal_strlit("<unknown>");
            assert(""@ =~= Seq::<char>::empty());
        }
        let no_program: ProgramInfo = Default::default();
        let no_station: StationInfo = Default::default();
        let program: &ProgramInfo = match recording.program_fsid {
            Some(fsid) => match self.programs.get(&fsid) {
                Some(p) => p,
                None => &no_program,
            },
            None => &no_program,
        };
        let station: &StationInfo = match recording.station_fsid {
            Some(fsid) => match self.stations.get(&fsid) {
                Some(s) => s,
                None => &no_station,
            },
            None => &no_station,
        };
        assert(program@ == self@.program(*recording));
        assert(station@ == self@.station(*recording));
        let channel = match &station.call_sign {
            Some(text) => text.clone(),
            None => or_fallback(&station.name, "").to_owned(),
        };
        RecordingRow {
            fsid: recording.fsid,
            title: truncate(or_fallback(&program.title, "<unknown>"), TITLE_WIDTH),
            episode: truncate(or_fallback(&program.episode_title, ""), EPISODE_WIDTH),
            recorded: tivo_date_time(recording.date, recording.time),
            channel,
            original_air_date: tivo_date(program.original_air_date),
            description: truncate(or_fallback(&program.description, ""), DESCRIPTION_WIDTH),
        }
    }

    /// The rows of all recordings, the most recent first.
    pub fn rows(&self) -> (rows: Vec<RecordingRow>)
        ensures
            rows@.len() == self.recordings@.len(),
            exists|sorted: Seq<Recording>|
                {
                    &&& #[trigger] sorted.to_multiset() == self.recordings@.to_multiset()
                    &&& rows@.len() == sorted.len()
                    &&& forall|i: int|
                        0 <= i < sorted.len() ==> (#[trigger] rows@[i]).fsid == sorted[i].fsid
                            && rows@[i].lists(sorted[i], self@)
                    &&& forall|i: int, j: int|
                        0 <= i < j < sorted.len() ==> {
                            let (a, b) = (#[trigger] sorted[i], #[trigger] sorted[j]);
                            &&& b.date is Some ==> a.date is Some && a.date->0 >= b.date->0
                            &&& a.date == b.date && b.time is Some ==> a.time is Some && a.time->0
                                >= b.time->0
                            &&& a.date == b.date && a.time == b.time ==> a.fsid <= b.fsid
                        }
                },
            exists|sorted: Seq<Recording>|
                {
                    &&& #[trigger] is_stable_sort(self@.recordings, sorted)
                    &&& rows@.len() == sorted.len()
                    &&& forall|i: int|
                        0 <= i < sorted.len() ==> (#[trigger] rows@[i]).lists(sorted[i], self@)
                },
    {
        let mut copies: Vec<Recording> = Vec::new();
        let mut i: usize = 0;
        while i < self.recordings.len()
            invariant
                i <= self.recordings@.len(),
                copies@ == self.recordings@.take(i as int),
            decreases self.recordings@.len() - i,
        {
            copies.push(self.recordings[i]);
            i += 1;
            assert(copies@ =~= self.recordings@.take(i as int));
        }
        assert(copies@ =~= self.recordings@);
        let sorted = sort_recordings(copies);
        let mut rows: Vec<RecordingRow> = Vec::new();
        let mut k: usize = 0;
        while k < sorted.len()
            invariant
                k <= sorted@.len(),
                rows@.len() == k,
                forall|j: int| 0 <= j < k ==> (#[trigger] rows@[j]).lists(sorted@[j], self@),
            decreases sorted@.len() - k,
        {
            rows.push(self.row(&sorted[k]));
            k += 1;
        }
        proof {
            law_sorted_recordings_are_most_recent_first(self@.recordings, sorted@);
            assert(sorted@.to_multiset() == self.recordings@.to_multiset());
        }
        assert(is_stable_sort(self@.recordings, sorted@));
        rows
    }
}

} // verus!
