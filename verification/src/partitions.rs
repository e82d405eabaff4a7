//! The partitions of a drive, and which of them to scan for titles.

use vstd::prelude::*;

use crate::text::{
    contains_text, law_occurring_is_being_a_part, lowercase, occurs_in, to_lowercase,
};

verus! {

pub const SECTOR_BYTES: u64 = 512;

/// Where no partition is named as an application region, those larger than this
/// (in 512-byte sectors) are treated as media regions and skipped, unless all are
/// asked for. ~4 GiB.
pub const APP_REGION_MAX_SECTORS: u32 = 8_000_000;

/// A partition of a drive.
pub struct Partition {
    pub name: String,
    pub kind: String,
    pub starting_sector: u32,
    pub sector_size: u32,
}

/// What a [`Partition`] holds.
pub struct PartitionEntry {
    pub name: Seq<char>,
    pub kind: Seq<char>,
    pub starting_sector: u32,
    pub sector_size: u32,
}

impl View for Partition {
    type V = PartitionEntry;

    open spec fn view(&self) -> PartitionEntry {
        PartitionEntry {
            name: self.name@,
            kind: self.kind@,
            starting_sector: self.starting_sector,
            sector_size: self.sector_size,
        }
    }
}

pub open spec fn partition_views(partitions: Seq<&Partition>) -> Seq<PartitionEntry> {
    partitions.map_values(|p: &Partition| p@)
}

/// What is said of partitions is said of all of them, and of all that each holds.
pub proof fn law_views_hold_everything(partitions: Seq<&Partition>)
    ensures
        partition_views(partitions).len() == partitions.len(),
        forall|k: int|
            0 <= k < partitions.len() ==> {
                let entry = #[trigger] partition_views(partitions)[k];
                &&& entry.name == partitions[k].name@
                &&& entry.kind == partitions[k].kind@
                &&& entry.starting_sector == partitions[k].starting_sector
                &&& entry.sector_size == partitions[k].sector_size
            },
{
}

/// By what partitions are told apart.
#[derive(Clone, Copy)]
pub enum PartitionRule {
    /// The partition belongs to the media file system.
    Mfs,
    /// The partition is named as an application region.
    Application,
    /// The partition is too small for a media region.
    Small,
}

impl PartitionRule {
    pub open spec fn admits(self, partition: PartitionEntry) -> bool {
        match self {
            PartitionRule::Mfs => partition.kind == "MFS"@,
            PartitionRule::Application => occurs_in(lowercase(partition.name), "application"@),
            PartitionRule::Small => partition.sector_size <= APP_REGION_MAX_SECTORS,
        }
    }

    fn check(&self, partition: &Partition) -> (r: bool)
        ensures
            r == self.admits(partition@),
    {
        match self {
            PartitionRule::Mfs => partition.kind == "MFS".to_owned(),
            PartitionRule::Application => contains_text(
                &to_lowercase(&partition.name),
                "application",
            ),
            PartitionRule::Small => partition.sector_size <= APP_REGION_MAX_SECTORS,
        }
    }
}

/// The partitions that a rule admits, in their order.
pub open spec fn admitted(
    partitions: Seq<PartitionEntry>,
    rule: PartitionRule,
) -> Seq<PartitionEntry> {
    partitions.filter(|p: PartitionEntry| rule.admits(p))
}

/// What the rules go by: the type `MFS`; a name in which, whatever its case, the
/// word `application` occurs; and at most eight million sectors. The partitions
/// that a rule admits are all that meet it, in their order.
pub proof fn law_rules_tell_partitions_apart(
    partitions: Seq<PartitionEntry>,
    partition: PartitionEntry,
)
    ensures
        PartitionRule::Mfs.admits(partition) <==> partition.kind == "MFS"@,
        PartitionRule::Application.admits(partition) <==> exists|at: int|
            0 <= at <= lowercase(partition.name).len() - "application"@.len()
                && #[trigger] lowercase(partition.name).subrange(at, at + "application"@.len())
                == "application"@,
        PartitionRule::Small.admits(partition) <==> partition.sector_size <= 8_000_000,
        admitted(partitions, PartitionRule::Mfs) == partitions.filter(
            |p: PartitionEntry| p.kind == "MFS"@,
        ),
        admitted(partitions, PartitionRule::Application) == partitions.filter(
            |p: PartitionEntry| occurs_in(lowercase(p.name), "application"@),
        ),
        admitted(partitions, PartitionRule::Small) == partitions.filter(
            |p: PartitionEntry| p.sector_size <= 8_000_000,
        ),
{
    law_occurring_is_being_a_part(lowercase(partition.name), "application"@);
    assert((|p: PartitionEntry| PartitionRule::Mfs.admits(p)) =~= (|p: PartitionEntry| p.kind
        == "MFS"@));
    assert((|p: PartitionEntry| PartitionRule::Application.admits(p)) =~= (|p: PartitionEntry|
        occurs_in(lowercase(p.name), "application"@)));
    assert((|p: PartitionEntry| PartitionRule::Small.admits(p)) =~= (|p: PartitionEntry|
        p.sector_size <= 8_000_000));
}

/// Picks the partitions that a rule admits, in their order.
pub fn select<'a>(partitions: &Vec<&'a Partition>, rule: PartitionRule) -> (chosen: Vec<
    &'a Partition,
>)
    ensures
        partition_views(chosen@) == admitted(partition_views(partitions@), rule),
        partition_views(chosen@) == partition_views(partitions@).filter(
            |p: PartitionEntry|
                match rule {
                    PartitionRule::Mfs => p.kind == "MFS"@,
                    PartitionRule::Application => occurs_in(lowercase(p.name), "application"@),
                    PartitionRule::Small => p.sector_size <= 8_000_000,
                },
        ),
{
    let ghost all = partition_views(partitions@);
    let mut chosen: Vec<&'a Partition> = Vec::new();
    let mut i: usize = 0;
    proof {
        reveal(Seq::filter);
        assert(partition_views(chosen@) =~= admitted(all.take(0), rule));
    }
    while i < partitions.len()
        invariant
            i <= partitions@.len(),
            all == partition_views(partitions@),
            partition_views(chosen@) == admitted(all.take(i as int), rule),
        decreases partitions@.len() - i,
    {
        let partition = partitions[i];
        let ghost had = partition_views(chosen@);
        i += 1;
        proof {
            assert(all.take(i as int) =~= all.take(i - 1).push(partition@));
            Seq::lemma_filter_push(
                all.take(i - 1),
                partition@,
                |p: PartitionEntry| rule.admits(p),
            );
        }
        if rule.check(partition) {
            chosen.push(partition);
            assert(partition_views(chosen@) =~= had.push(partition@));
        }
    }
    assert(all.take(i as int) =~= all);
    proof {
        let meets = |p: PartitionEntry|
            match rule {
                PartitionRule::Mfs => p.kind == "MFS"@,
                PartitionRule::Application => occurs_in(lowercase(p.name), "application"@),
                PartitionRule::Small => p.sector_size <= 8_000_000,
            };
        assert((|p: PartitionEntry| rule.admits(p)) =~= meets);
    }
    chosen
}

/// The partitions to scan, of those of the media file system. Ones explicitly
/// named as application regions are preferred; without any, it is the smaller
/// ones (the media regions are huge).
pub open spec fn scan_targets(mfs: Seq<PartitionEntry>, scan_all: bool) -> Seq<PartitionEntry> {
    let named = admitted(mfs, PartitionRule::Application);
    if scan_all {
        mfs
    } else if named.len() > 0 {
        named
    } else {
        admitted(mfs, PartitionRule::Small)
    }
}

/// What is scanned: all partitions where all are asked for; otherwise those named
/// as application regions, whatever their size; and where there is none, those of
/// at most eight million sectors.
pub proof fn law_targets_prefer_application_regions(mfs: Seq<PartitionEntry>, scan_all: bool)
    ensures
        ({
            let named = mfs.filter(
                |p: PartitionEntry| occurs_in(lowercase(p.name), "application"@),
            );
            let small = mfs.filter(|p: PartitionEntry| p.sector_size <= 8_000_000);
            &&& scan_all ==> scan_targets(mfs, scan_all) == mfs
            &&& !scan_all && named.len() > 0 ==> scan_targets(mfs, scan_all) == named
            &&& !scan_all && named.len() == 0 ==> scan_targets(mfs, scan_all) == small
        }),
{
    law_rules_tell_partitions_apart(
        mfs,
        PartitionEntry {
            name: Seq::empty(),
            kind: Seq::empty(),
            starting_sector: 0,
            sector_size: 0,
        },
    );
}

/// Picks the partitions to scan, of those of the media file system.
pub fn targets<'a>(mfs: &Vec<&'a Partition>, scan_all: bool) -> (chosen: Vec<&'a Partition>)
    ensures
        partition_views(chosen@) == scan_targets(partition_views(mfs@), scan_all),
        ({
            let all = partition_views(mfs@);
            let named = all.filter(
                |p: PartitionEntry| occurs_in(lowercase(p.name), "application"@),
            );
            let small = all.filter(|p: PartitionEntry| p.sector_size <= 8_000_000);
            &&& scan_all ==> partition_views(chosen@) == all
            &&& !scan_all && named.len() > 0 ==> partition_views(chosen@) == named
            &&& !scan_all && named.len() == 0 ==> partition_views(chosen@) == small
        }),
{
    proof {
        law_targets_prefer_application_regions(partition_views(mfs@), scan_all);
    }
    if scan_all {
        let mut chosen: Vec<&'a Partition> = Vec::new();
        let mut i: usize = 0;
        while i < mfs.len()
            invariant
                i <= mfs@.len(),
                chosen@ == mfs@.take(i as int),
            decreases mfs@.len() - i,
        {
            chosen.push(mfs[i]);
            i += 1;
            assert(chosen@ =~= mfs@.take(i as int));
        }
        assert(chosen@ =~= mfs@);
        return chosen;
    }
    let named = select(mfs, PartitionRule::Application);
    assert(partition_views(named@).len() == named@.len());
    if named.len() == 0 {
        select(mfs, PartitionRule::Small)
    } else {
        named
    }
}

/// Where a partition starts and how long it is, in bytes.
pub fn byte_range(partition: &Partition) -> (range: (u64, u64))
    ensures
        range.0 == partition.starting_sector * SECTOR_BYTES,
        range.1 == partition.sector_size * SECTOR_BYTES,
        range.0 == partition.starting_sector * 512,
        range.1 == partition.sector_size * 512,
{
    (
        partition.starting_sector as u64 * SECTOR_BYTES,
        partition.sector_size as u64 * SECTOR_BYTES,
    )
}

} // verus!
