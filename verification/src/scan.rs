//! Finding recordings by looking at every inode.
//!
//! A scan collects recordings plus the Program and Station objects they refer
//! to. It does not rely on the `/Recording` index directories, so it still works
//! on a drive whose directory structure is damaged or partial.

use std::collections::HashMap;

use vstd::prelude::*;

use crate::object::{parsed_object, MFSObject, Subobject};
use crate::order::{in_order, law_sort_keeps_elements, stable_sort, Ranked};
use crate::recordings::{
    program_info, program_of, recording_from_object, recording_of, station_info, station_of,
    Catalog, Holdings, Recording,
};
use crate::text::{decimal, pad_left, padded_left, to_decimal};

verus! {

broadcast use vstd::std_specs::hash::group_hash_axioms;

/// Database objects are small; anything larger is almost certainly not a tyDB
/// object and should not be pulled into memory while scanning.
pub const MAX_OBJECT_SIZE: u32 = 1_048_576;

/// An object shorter than its header holds nothing.
pub const MIN_OBJECT_BYTES: usize = 8;

/// How many inodes lie between two progress reports.
pub const PROGRESS_INTERVAL: u64 = 50_000;

/// How many object types a summary lists.
pub const TYPES_LISTED: usize = 25;

/// Whether an inode can hold an object at all: it is in use, and its size is
/// neither zero nor beyond what an object takes.
pub open spec fn may_hold_object(fsid: u32, size: u32) -> bool {
    fsid != 0 && 0 < size <= MAX_OBJECT_SIZE
}

/// Whether an inode is worth reading. Only database objects hold tyDB metadata.
/// Everything else is skipped, critically the media Stream inodes, whose data is
/// the multi-gigabyte MPEG recording and would otherwise be read entirely into
/// memory.
pub fn is_candidate(fsid: u32, is_db: bool, size: u32) -> (r: bool)
    ensures
        r == (is_db && may_hold_object(fsid, size)),
        r == (is_db && fsid != 0 && 0 < size && size <= 1_048_576),
{
    !(fsid == 0 || !is_db || size == 0 || size > MAX_OBJECT_SIZE)
}

/// Whether an inode can hold an object, of whatever type it is. The size cap
/// keeps media streams out.
pub fn is_object_sized(fsid: u32, size: u32) -> (r: bool)
    ensures
        r == may_hold_object(fsid, size),
        r == (fsid != 0 && 0 < size && size <= 1_048_576),
{
    !(fsid == 0 || size == 0 || size > MAX_OBJECT_SIZE)
}

/// Whether a progress report is due once `scanned` inodes have been seen.
pub fn progress_due(scanned: u64) -> (due: bool)
    ensures
        due == (scanned % PROGRESS_INTERVAL == 0),
        due == (scanned % 50_000 == 0),
{
    scanned % PROGRESS_INTERVAL == 0
}

/// What is held once the object `fsid` has been looked at too.
pub open spec fn absorbed(held: Holdings, fsid: u32, object: Seq<Subobject>) -> Holdings {
    Holdings {
        recordings: match recording_of(fsid, object) {
            Some(recording) => held.recordings.push(recording),
            None => held.recordings,
        },
        programs: match program_of(object) {
            Some(program) => held.programs.insert(fsid, program),
            None => held.programs,
        },
        stations: match station_of(object) {
            Some(station) => held.stations.insert(fsid, station),
            None => held.stations,
        },
    }
}

/// How many of the subobjects have the type.
pub open spec fn type_count(subobjects: Seq<Subobject>, obj_type: u16) -> nat {
    subobjects.filter(|s: Subobject| s.obj_type == obj_type).len()
}

/// How often the type has been counted.
pub open spec fn counted(histogram: Map<u16, u64>, obj_type: u16) -> int {
    if histogram.contains_key(obj_type) {
        histogram[obj_type] as int
    } else {
        0
    }
}

/// A scan under way: what it has found, and what it has seen.
pub struct Scan {
    pub catalog: Catalog,
    pub scanned: u64,
    pub db_inodes_read: u64,
    pub objects_with_subobjects: u64,
    pub type_histogram: HashMap<u16, u64>,
}

/// How often an object type occurred.
#[derive(Debug, Clone, Copy, PartialEq, Eq)]
pub struct TypeCount {
    pub obj_type: u16,
    pub count: u64,
}

impl Ranked for TypeCount {
    /// The more frequent first.
    open spec fn leads(self, other: Self) -> bool {
        self.count >= other.count
    }

    proof fn leads_is_total(a: Self, b: Self) {
    }

    proof fn leads_is_transitive(a: Self, b: Self, c: Self) {
    }

    fn check_leads(&self, other: &Self) -> (r: bool) {
        self.count >= other.count
    }
}

/// Every entry gives a type and its count, and no type twice.
pub open spec fn lists_types(entries: Seq<TypeCount>, histogram: Map<u16, u64>) -> bool {
    &&& forall|i: int|
        0 <= i < entries.len() ==> {
            let entry = #[trigger] entries[i];
            &&& histogram.contains_key(entry.obj_type)
            &&& histogram[entry.obj_type] == entry.count
        }
    &&& forall|i: int, j: int|
        0 <= i < j < entries.len() ==> (#[trigger] entries[i]).obj_type != (
        #[trigger] entries[j]).obj_type
}

/// Whether an entry is about the type.
pub open spec fn is_listed(entries: Seq<TypeCount>, obj_type: u16) -> bool {
    exists|i: int| 0 <= i < entries.len() && (#[trigger] entries[i]).obj_type == obj_type
}

impl Scan {
    /// Whether the counters can count one more object of `len` bytes.
    pub open spec fn has_room(self, len: nat) -> bool {
        &&& self.db_inodes_read < u64::MAX
        &&& self.objects_with_subobjects < u64::MAX
        &&& forall|t: u16| #[trigger]
            self.type_histogram@.contains_key(t) ==> self.type_histogram@[t] + len <= u64::MAX
    }

    pub fn new() -> (scan: Scan)
        ensures
            scan.catalog@ == Holdings::empty(),
            scan.scanned == 0,
            scan.db_inodes_read == 0,
            scan.objects_with_subobjects == 0,
            scan.type_histogram@ == Map::<u16, u64>::empty(),
    {
        Scan {
            catalog: Catalog::new(),
            scanned: 0,
            db_inodes_read: 0,
            objects_with_subobjects: 0,
            type_histogram: HashMap::new(),
        }
    }

    /// Counts an inode, and tells whether a progress report is due.
    pub fn count_inode(&mut self) -> (due: bool)
        requires
            old(self).scanned < u64::MAX,
        ensures
            final(self).scanned == old(self).scanned + 1,
            due == (final(self).scanned % PROGRESS_INTERVAL == 0),
            due == (final(self).scanned % 50_000 == 0),
            final(self).catalog == old(self).catalog,
            final(self).db_inodes_read == old(self).db_inodes_read,
            final(self).objects_with_subobjects == old(self).objects_with_subobjects,
            final(self).type_histogram == old(self).type_histogram,
    {
        self.scanned = self.scanned + 1;
        progress_due(self.scanned)
    }

    fn count_types(&mut self, object: &MFSObject)
        requires
            forall|t: u16| #[trigger]
                old(self).type_histogram@.contains_key(t) ==> old(self).type_histogram@[t]
                    + object.subobjects@.len() <= u64::MAX,
            object.subobjects@.len() <= u64::MAX,
        ensures
            forall|t: u16| #[trigger]
                counted(final(self).type_histogram@, t) == counted(old(self).type_histogram@, t)
                    + type_count(object@, t),
            forall|t: u16| #[trigger]
                final(self).type_histogram@.contains_key(t) <==> old(
                    self,
                ).type_histogram@.contains_key(t) || type_count(object@, t) > 0,
            final(self).catalog == old(self).catalog,
            final(self).scanned == old(self).scanned,
            final(self).db_inodes_read == old(self).db_inodes_read,
            final(self).objects_with_subobjects == old(self).objects_with_subobjects,
    {
        let ghost before = self.type_histogram@;
        let ghost all = object@;
        let mut i: usize = 0;
        proof {
            assert forall|t: u16| type_count(all.take(0), t) == 0 by {
                reveal(Seq::filter);
            }
        }
        while i < object.subobjects.len()
            invariant
                i <= object.subobjects@.len(),
                all == object@,
                forall|t: u16| #[trigger]
                    before.contains_key(t) ==> before[t] + object.subobjects@.len() <= u64::MAX,
                object.subobjects@.len() <= u64::MAX,
                forall|t: u16| #[trigger] type_count(all.take(i as int), t) <= i,
                forall|t: u16| #[trigger]
                    counted(self.type_histogram@, t) == counted(before, t) + type_count(
                        all.take(i as int),
                        t,
                    ),
                forall|t: u16| #[trigger]
                    self.type_histogram@.contains_key(t) <==> before.contains_key(t) || type_count(
                        all.take(i as int),
                        t,
                    ) > 0,
                self.catalog == old(self).catalog,
                self.scanned == old(self).scanned,
                self.db_inodes_read == old(self).db_inodes_read,
                self.objects_with_subobjects == old(self).objects_with_subobjects,
            decreases object.subobjects@.len() - i,
        {
            let obj_type: u16 = object.subobjects[i].obj_type;
            let ghost earlier = self.type_histogram@;
            let count: u64 = match self.type_histogram.get(&obj_type) {
                Some(count) => *count,
                None => 0,
            };
            assert(count == counted(earlier, obj_type));
            assert(before.contains_key(obj_type) || counted(before, obj_type) == 0);
            assert(type_count(all.take(i as int), obj_type) <= i);
            self.type_histogram.insert(obj_type, count + 1);
            i += 1;
            proof {
                let done = all.take(i - 1);
                let next = all[i - 1];
                assert(next.obj_type == obj_type);
                assert(all.take(i as int) =~= done.push(next));
                assert forall|t: u16| #[trigger]
                    type_count(all.take(i as int), t) == type_count(done, t) + if t == obj_type {
                    1int
                } else {
                    0int
                } by {
                    Seq::lemma_filter_push(done, next, |s: Subobject| s.obj_type == t);
                }
                assert forall|t: u16| #[trigger]
                    counted(self.type_histogram@, t) == counted(before, t) + type_count(
                    all.take(i as int),
                    t,
                ) by {
                    assert(counted(earlier, t) == counted(before, t) + type_count(done, t));
                }
            }
        }
        assert(all.take(i as int) =~= all);
    }

    /// Looks at the data of the object `fsid`.
    pub fn absorb(&mut self, fsid: u32, data: &[u8])
        requires
            old(self).has_room(data@.len()),
        ensures
            final(self).scanned == old(self).scanned,
            data@.len() < MIN_OBJECT_BYTES ==> *final(self) == *old(self),
            data@.len() < 8 ==> *final(self) == *old(self),
            data@.len() >= 8 ==> {
                let object = parsed_object(data@);
                let (before, after) = (old(self).catalog, final(self).catalog);
                &&& after.recordings@ == (match recording_of(fsid, object) {
                    Some(recording) => before.recordings@.push(recording),
                    None => before.recordings@,
                })
                &&& after@.programs == (match program_of(object) {
                    Some(program) => before@.programs.insert(fsid, program),
                    None => before@.programs,
                })
                &&& after@.stations == (match station_of(object) {
                    Some(station) => before@.stations.insert(fsid, station),
                    None => before@.stations,
                })
                &&& final(self).db_inodes_read == old(self).db_inodes_read + 1
                &&& object.len() == 0 ==> final(self).objects_with_subobjects == old(
                    self,
                ).objects_with_subobjects
                &&& object.len() > 0 ==> final(self).objects_with_subobjects == old(
                    self,
                ).objects_with_subobjects + 1
                &&& forall|t: u16|
                    {
                        let added = object.filter(|s: Subobject| s.obj_type == t).len();
                        let had = if old(self).type_histogram@.contains_key(t) {
                            old(self).type_histogram@[t] as int
                        } else {
                            0
                        };
                        &&& #[trigger] final(self).type_histogram@.contains_key(t) <==> old(
                            self,
                        ).type_histogram@.contains_key(t) || added > 0
                        &&& final(self).type_histogram@.contains_key(t)
                            ==> final(self).type_histogram@[t] == had + added
                    }
            },
            data@.len() >= MIN_OBJECT_BYTES ==> ({
                let object = parsed_object(data@);
                &&& final(self).catalog@ == absorbed(old(self).catalog@, fsid, object)
                &&& final(self).db_inodes_read == old(self).db_inodes_read + 1
                &&& final(self).objects_with_subobjects == old(self).objects_with_subobjects
                    + if object.len() > 0 {
                    1int
                } else {
                    0int
                }
                &&& forall|t: u16| #[trigger]
                    counted(final(self).type_histogram@, t) == counted(
                        old(self).type_histogram@,
                        t,
                    ) + type_count(object, t)
                &&& forall|t: u16| #[trigger]
                    final(self).type_histogram@.contains_key(t) <==> old(
                        self,
                    ).type_histogram@.contains_key(t) || type_count(object, t) > 0
            }),
    {
        if data.len() < MIN_OBJECT_BYTES {
            return;
        }
        self.db_inodes_read = self.db_inodes_read + 1;
        let object = MFSObject::parse(data);
        proof {
            crate::layout::law_subobjects_take_room(data@);
            assert(object@.len() == object.subobjects@.len());
        }
        if object.subobjects.len() > 0 {
            self.objects_with_subobjects = self.objects_with_subobjects + 1;
        }
        self.count_types(&object);
        let ghost held = self.catalog@;
        if let Some(program) = program_info(&object) {
            self.catalog.programs.insert(fsid, program);
            assert(self.catalog@.programs =~= held.programs.insert(fsid, program@));
        }
        if let Some(station) = station_info(&object) {
            self.catalog.stations.insert(fsid, station);
            assert(self.catalog@.stations =~= held.stations.insert(fsid, station@));
        }
        if let Some(recording) = recording_from_object(fsid, &object) {
            self.catalog.recordings.push(recording);
        }
        proof {
            assert forall|t: u16|
                {
                    let added = object@.filter(|s: Subobject| s.obj_type == t).len();
                    let had = if old(self).type_histogram@.contains_key(t) {
                        old(self).type_histogram@[t] as int
                    } else {
                        0
                    };
                    &&& #[trigger] self.type_histogram@.contains_key(t) <==> old(
                        self,
                    ).type_histogram@.contains_key(t) || added > 0
                    &&& self.type_histogram@.contains_key(t) ==> self.type_histogram@[t] == had
                        + added
                } by {
                assert(counted(self.type_histogram@, t) == counted(old(self).type_histogram@, t)
                    + type_count(object@, t));
            }
        }
    }

    /// The counts of all types, in no particular order.
    fn type_counts(&self) -> (counts: Vec<TypeCount>)
        ensures
            lists_types(counts@, self.type_histogram@),
            counts@.len() == self.type_histogram@.dom().len(),
            forall|t: u16| #[trigger]
                self.type_histogram@.contains_key(t) ==> is_listed(counts@, t),
    {
        let mut counts: Vec<TypeCount> = Vec::new();
        for obj_type in iter: self.type_histogram.keys()
            invariant
                iter.seq().unref().to_set() == self.type_histogram@.dom(),
                forall|t: u16| #[trigger]
                    self.type_histogram@.contains_key(t) ==> iter.seq().contains(&t),
                iter.seq().no_duplicates(),
                iter.seq().len() == self.type_histogram@.dom().len(),
                counts@.len() == iter.index(),
                forall|i: int|
                    #![trigger counts@[i]]
                    #![trigger iter.seq()[i]]
                    0 <= i < counts@.len() ==> {
                        let entry = counts@[i];
                        &&& entry.obj_type == *iter.seq()[i]
                        &&& self.type_histogram@.contains_key(entry.obj_type)
                        &&& self.type_histogram@[entry.obj_type] == entry.count
                    },
        {
            proof {
                let types = iter.seq().unref();
                assert(types[iter.index() as int] == *obj_type);
                assert(types.to_set().contains(*obj_type));
            }
            let count: u64 = match self.type_histogram.get(obj_type) {
                Some(count) => *count,
                None => 0,
            };
            counts.push(TypeCount { obj_type: *obj_type, count });
        }
        counts
    }

    /// The most frequent object types, the most frequent first, and no more than
    /// a summary lists. In what order types of the same count come is not fixed.
    pub fn most_common_types(&self) -> (entries: Vec<TypeCount>)
        ensures
            lists_types(entries@, self.type_histogram@),
            in_order(entries@),
            forall|i: int|
                0 <= i < entries@.len() ==> self.type_histogram@.contains_key(
                    (#[trigger] entries@[i]).obj_type,
                ) && self.type_histogram@[entries@[i].obj_type] == entries@[i].count,
            forall|i: int, j: int|
                0 <= i < j < entries@.len() ==> (#[trigger] entries@[i]).obj_type != (
                #[trigger] entries@[j]).obj_type && entries@[i].count >= entries@[j].count,
            entries@.len() <= 25,
            forall|t: u16| #[trigger]
                self.type_histogram@.contains_key(t) ==> (exists|i: int|
                    0 <= i < entries@.len() && (#[trigger] entries@[i]).obj_type == t) || (
                entries@.len() == 25 && forall|i: int|
                    0 <= i < 25 ==> (#[trigger] entries@[i]).count >= self.type_histogram@[t]),
            entries@.len() == if self.type_histogram@.dom().len() < TYPES_LISTED {
                self.type_histogram@.dom().len()
            } else {
                TYPES_LISTED as nat
            },
            forall|t: u16| #[trigger]
                self.type_histogram@.contains_key(t) && !is_listed(entries@, t) ==> {
                    &&& entries@.len() == TYPES_LISTED
                    &&& forall|i: int|
                        0 <= i < entries@.len() ==> (#[trigger] entries@[i]).count
                            >= self.type_histogram@[t]
                },
    {
        let counts = self.type_counts();
        let ghost all = counts@;
        let mut entries = stable_sort(counts);
        let ghost sorted = entries@;
        proof {
            law_sort_keeps_elements(all, sorted);
            assert(all.no_duplicates());
            lemma_rearranged_types(all, sorted, self.type_histogram@);
        }
        entries.truncate(TYPES_LISTED);
        proof {
            assert forall|i: int, j: int| 0 <= i < j < entries@.len() implies (
            #[trigger] entries@[i]).count >= (#[trigger] entries@[j]).count by {
                assert(sorted[i].leads(sorted[j]));
            }
            assert forall|t: u16| #[trigger]
                self.type_histogram@.contains_key(t) && !is_listed(entries@, t) implies {
                &&& entries@.len() == TYPES_LISTED
                &&& forall|i: int|
                    0 <= i < entries@.len() ==> (#[trigger] entries@[i]).count
                        >= self.type_histogram@[t]
            } by {
                let k = choose|k: int| 0 <= k < sorted.len() && sorted[k].obj_type == t;
                assert(is_listed(sorted, t));
                if k < entries@.len() {
                    assert(entries@[k].obj_type == t);
                }
                assert forall|i: int| 0 <= i < entries@.len() implies (#[trigger] entries@[i]).count
                    >= self.type_histogram@[t] by {
                    assert(sorted[i].leads(sorted[k]));
                }
            }
        }
        entries
    }
}

proof fn lemma_rearranged_types(
    entries: Seq<TypeCount>,
    moved: Seq<TypeCount>,
    histogram: Map<u16, u64>,
)
    requires
        lists_types(entries, histogram),
        moved.no_duplicates(),
        forall|e: TypeCount| #[trigger] moved.contains(e) <==> entries.contains(e),
    ensures
        lists_types(moved, histogram),
        forall|t: u16| #[trigger] is_listed(entries, t) ==> is_listed(moved, t),
{
    assert forall|i: int| 0 <= i < moved.len() implies {
        let entry = #[trigger] moved[i];
        &&& histogram.contains_key(entry.obj_type)
        &&& histogram[entry.obj_type] == entry.count
    } by {
        assert(moved.contains(moved[i]));
        let k = choose|k: int| 0 <= k < entries.len() && entries[k] == moved[i];
        assert(entries[k] == moved[i]);
    }
    assert forall|t: u16| #[trigger] is_listed(entries, t) implies is_listed(moved, t) by {
        let k = choose|k: int| 0 <= k < entries.len() && (#[trigger] entries[k]).obj_type == t;
        assert(moved.contains(entries[k]));
    }
}

/// The line of a summary for one type.
pub fn type_line(entry: &TypeCount) -> (line: String)
    ensures
        line@ == "  "@ + padded_left(decimal(entry.obj_type as nat), 3, ' ') + ": "@ + decimal(
            entry.count as nat,
        ),
{
    let mut line = "  ".to_owned();
    line.append(&pad_left(&to_decimal(entry.obj_type as u64), 3, ' '));
    line.append(": ");
    line.append(&to_decimal(entry.count));
    line
}

/// What is held once all the objects have been looked at, in order. Data shorter
/// than an object's header holds nothing.
pub open spec fn collected(objects: Seq<(u32, Seq<u8>)>) -> Holdings
    decreases objects.len(),
{
    if objects.len() == 0 {
        Holdings::empty()
    } else {
        let held = collected(objects.drop_last());
        let (fsid, data) = objects.last();
        if data.len() < MIN_OBJECT_BYTES {
            held
        } else {
            absorbed(held, fsid, parsed_object(data))
        }
    }
}

/// Looking at one more object takes a scan from what the objects so far give to
/// what all of them give.
pub proof fn law_scan_goes_object_by_object(objects: Seq<(u32, Seq<u8>)>, fsid: u32, data: Seq<u8>)
    ensures
        collected(objects.push((fsid, data))) == if data.len() < MIN_OBJECT_BYTES {
            collected(objects)
        } else {
            absorbed(collected(objects), fsid, parsed_object(data))
        },
{
    assert(objects.push((fsid, data)).drop_last() =~= objects);
}

/// A scan holds every recording that the objects describe, and no other.
pub proof fn law_scan_finds_the_recordings(objects: Seq<(u32, Seq<u8>)>, recording: Recording)
    ensures
        collected(objects).recordings.contains(recording) <==> exists|i: int|
            0 <= i < objects.len() && recording_of(
                (#[trigger] objects[i]).0,
                parsed_object(objects[i].1),
            ) == Some(recording),
    decreases objects.len(),
{
    let found = |i: int| recording_of(objects[i].0, parsed_object(objects[i].1)) == Some(recording);
    if objects.len() > 0 {
        let fewer = objects.drop_last();
        let last = objects.len() - 1;
        law_scan_finds_the_recordings(fewer, recording);
        assert forall|i: int| 0 <= i < fewer.len() implies fewer[i] == #[trigger] objects[i] by {
        }
        let held = collected(fewer).recordings;
        let now = collected(objects).recordings;
        let read = recording_of(objects[last].0, parsed_object(objects[last].1));
        assert(read is Some && objects[last].1.len() >= MIN_OBJECT_BYTES ==> now == held.push(
            read->0,
        ));
        if held.contains(recording) {
            let k = choose|k: int| 0 <= k < held.len() && held[k] == recording;
            assert(now[k] == recording);
        }
        if now.contains(recording) && !held.contains(recording) {
            let k = choose|k: int| 0 <= k < now.len() && now[k] == recording;
            assert(k == held.len());
            assert(found(last));
        }
        if found(last) {
            assert(objects[last].1.len() >= MIN_OBJECT_BYTES);
            assert(now.last() == recording);
        }
    }
}

/// The recordings of a scan are, one for one and in order, those of the objects
/// that describe one: there are as many as there are such objects, and the first
/// comes from the first of them, the next from the next.
pub proof fn law_scan_holds_recordings_one_for_one(objects: Seq<(u32, Seq<u8>)>)
    ensures
        collected(objects).recordings == objects.filter(
            |o: (u32, Seq<u8>)| recording_of(o.0, parsed_object(o.1)) is Some,
        ).map_values(|o: (u32, Seq<u8>)| recording_of(o.0, parsed_object(o.1))->0),
    decreases objects.len(),
{
    let describes = |o: (u32, Seq<u8>)| recording_of(o.0, parsed_object(o.1)) is Some;
    let described = |o: (u32, Seq<u8>)| recording_of(o.0, parsed_object(o.1))->0;
    let kept = objects.filter(describes).map_values(described);
    if objects.len() == 0 {
        reveal(Seq::filter);
        assert(collected(objects).recordings =~= kept);
    } else {
        let fewer = objects.drop_last();
        let last = objects.last();
        law_scan_holds_recordings_one_for_one(fewer);
        assert(fewer.push(last) =~= objects);
        Seq::lemma_filter_push(fewer, last, describes);
        if last.1.len() < 8 {
            crate::layout::law_subobjects_lie_one_after_the_other(last.1);
            assert(recording_of(last.0, parsed_object(last.1)) is None);
        }
        assert(collected(objects).recordings =~= kept);
    }
}

/// A scan holds a program for an fsid exactly where an object of that fsid
/// describes one, and a station likewise.
pub proof fn law_scan_holds_no_other_programs_and_stations(
    objects: Seq<(u32, Seq<u8>)>,
    fsid: u32,
)
    ensures
        collected(objects).programs.contains_key(fsid) <==> exists|i: int|
            0 <= i < objects.len() && (#[trigger] objects[i]).0 == fsid && program_of(
                parsed_object(objects[i].1),
            ) is Some,
        collected(objects).stations.contains_key(fsid) <==> exists|i: int|
            0 <= i < objects.len() && (#[trigger] objects[i]).0 == fsid && station_of(
                parsed_object(objects[i].1),
            ) is Some,
    decreases objects.len(),
{
    if objects.len() > 0 {
        let fewer = objects.drop_last();
        let last = objects.len() - 1;
        law_scan_holds_no_other_programs_and_stations(fewer, fsid);
        assert(objects.last() == objects[last]);
        assert forall|i: int| 0 <= i < fewer.len() implies fewer[i] == #[trigger] objects[i] by {
        }
        assert forall|i: int| 0 <= i < fewer.len() implies #[trigger] fewer[i] == objects[i] by {
        }
        if objects[last].1.len() < 8 {
            crate::layout::law_subobjects_lie_one_after_the_other(objects[last].1);
        }
    }
}

/// Of several objects with the same fsid, the last that describes a program is
/// the one whose program is held.
pub proof fn law_scan_keeps_the_last_program(objects: Seq<(u32, Seq<u8>)>, i: int)
    requires
        0 <= i < objects.len(),
        program_of(parsed_object(objects[i].1)) is Some,
        forall|j: int|
            i < j < objects.len() && (#[trigger] objects[j]).0 == objects[i].0 ==> program_of(
                parsed_object(objects[j].1),
            ) is None,
    ensures
        collected(objects).programs.contains_key(objects[i].0),
        Some(collected(objects).programs[objects[i].0]) == program_of(parsed_object(objects[i].1)),
    decreases objects.len(),
{
    if i < objects.len() - 1 {
        let fewer = objects.drop_last();
        assert forall|j: int|
            i < j < fewer.len() && (#[trigger] fewer[j]).0 == fewer[i].0 implies program_of(
            parsed_object(fewer[j].1),
        ) is None by {
            assert(fewer[j] == objects[j]);
        }
        law_scan_keeps_the_last_program(fewer, i);
        assert(objects.last() == objects[objects.len() - 1]);
    }
}

/// Of several objects with the same fsid, the last that describes a station is
/// the one whose station is held.
pub proof fn law_scan_keeps_the_last_station(objects: Seq<(u32, Seq<u8>)>, i: int)
    requires
        0 <= i < objects.len(),
        station_of(parsed_object(objects[i].1)) is Some,
        forall|j: int|
            i < j < objects.len() && (#[trigger] objects[j]).0 == objects[i].0 ==> station_of(
                parsed_object(objects[j].1),
            ) is None,
    ensures
        collected(objects).stations.contains_key(objects[i].0),
        Some(collected(objects).stations[objects[i].0]) == station_of(parsed_object(objects[i].1)),
    decreases objects.len(),
{
    if i < objects.len() - 1 {
        let fewer = objects.drop_last();
        assert forall|j: int|
            i < j < fewer.len() && (#[trigger] fewer[j]).0 == fewer[i].0 implies station_of(
            parsed_object(fewer[j].1),
        ) is None by {
            assert(fewer[j] == objects[j]);
        }
        law_scan_keeps_the_last_station(fewer, i);
        assert(objects.last() == objects[objects.len() - 1]);
    }
}

} // verus!
