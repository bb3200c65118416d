//! Resident and unique memory of each group of one partition.
//!
//! The resident size of a group counts each frame of its footprint once. Its
//! unique size counts the frames that no group of another name holds.

use crate::group::aggregate;
use crate::group::aggregation;
use crate::group::group_footprint;
use crate::group::AggregateError;
use crate::group::ProcessGroup;
use crate::group::ProcessGroupInfo;
use crate::ordered_set::OrderedSet;
use vstd::prelude::*;

verus! {

/// The memory figures of one group.
pub struct GroupUsage {
    /// The name of the group.
    pub name: String,
    /// The number of frames of the group's footprint.
    pub pfns: usize,
    /// The number of those frames that no group of another name holds.
    pub unique_pfns: usize,
    /// The size of the frames of the footprint, in bytes.
    pub rss: u64,
    /// The size of the frames that no group of another name holds, in bytes.
    pub uss: u64,
}

/// The frames of the footprint of `group`.
pub open spec fn group_frames(group: ProcessGroup, page_size: u64) -> Set<u64> {
    group_footprint(group.processes@, page_size).pfns
}

/// The frames of the groups before `limit` whose name differs from that of
/// the group at `index`.
pub open spec fn other_frames_before(
    groups: Seq<ProcessGroup>,
    index: int,
    limit: int,
    page_size: u64,
) -> Set<u64> {
    Set::new(
        |pfn: u64|
            exists|j: int|
                0 <= j < limit && j < groups.len() && (#[trigger] groups[j]).name@
                    != groups[index].name@ && group_frames(groups[j], page_size).contains(pfn),
    )
}

/// The frames of every group whose name differs from that of the group at
/// `index`.
pub open spec fn other_frames(groups: Seq<ProcessGroup>, index: int, page_size: u64) -> Set<u64> {
    other_frames_before(groups, index, groups.len() as int, page_size)
}

/// The frames of the group at `index` that no group of another name holds.
pub open spec fn unique_frames(groups: Seq<ProcessGroup>, index: int, page_size: u64) -> Set<u64> {
    group_frames(groups[index], page_size).difference(other_frames(groups, index, page_size))
}

/// Whether `usage` holds the figures of the group at `index`.
pub open spec fn is_usage_of(
    usage: GroupUsage,
    groups: Seq<ProcessGroup>,
    index: int,
    page_size: u64,
) -> bool {
    &&& usage.name@ == groups[index].name@
    &&& usage.pfns == group_frames(groups[index], page_size).len()
    &&& usage.unique_pfns == unique_frames(groups, index, page_size).len()
    &&& usage.rss == group_frames(groups[index], page_size).len() * page_size
    &&& usage.uss == unique_frames(groups, index, page_size).len() * page_size
}

/// Whether the figures of every group can be given: each footprint can be
/// aggregated and each resident size fits in 64 bits.
pub open spec fn usage_is_defined(groups: Seq<ProcessGroup>, page_size: u64) -> bool {
    forall|i: int|
        0 <= i < groups.len() ==> (#[trigger] aggregation(groups[i].processes@, page_size)) is Ok
            && group_frames(groups[i], page_size).len() * page_size <= u64::MAX
}

/// A frame of a group is unique to it exactly where no group of another name
/// holds it.
pub proof fn lemma_unique_frames(groups: Seq<ProcessGroup>, index: int, page_size: u64)
    requires
        0 <= index < groups.len(),
    ensures
        forall|pfn: u64|
            unique_frames(groups, index, page_size).contains(pfn) <==> group_frames(
                groups[index],
                page_size,
            ).contains(pfn) && forall|j: int|
                0 <= j < groups.len() && (#[trigger] groups[j]).name@ != groups[index].name@
                    ==> !group_frames(groups[j], page_size).contains(pfn),
{
    assert forall|pfn: u64|
        unique_frames(groups, index, page_size).contains(pfn) <==> group_frames(
            groups[index],
            page_size,
        ).contains(pfn) && forall|j: int|
            0 <= j < groups.len() && (#[trigger] groups[j]).name@ != groups[index].name@
                ==> !group_frames(groups[j], page_size).contains(pfn) by {
        let others = other_frames(groups, index, page_size);
        if others.contains(pfn) {
            let j = choose|j: int|
                0 <= j < groups.len() && j < groups.len() && (#[trigger] groups[j]).name@
                    != groups[index].name@ && group_frames(groups[j], page_size).contains(pfn);
            assert(group_frames(groups[j], page_size).contains(pfn));
        }
    }
}

/// Of two groups of different names, the unique frames of the first are its
/// frames without those that it has in common with the second.
pub proof fn lemma_unique_excludes_shared(first: ProcessGroup, second: ProcessGroup, page_size: u64)
    requires
        first.name@ != second.name@,
    ensures
        unique_frames(seq![first, second], 0, page_size) == group_frames(
            first,
            page_size,
        ).difference(group_frames(first, page_size).intersect(group_frames(second, page_size))),
        unique_frames(seq![first, second], 0, page_size).disjoint(
            group_frames(second, page_size),
        ),
{
    let groups = seq![first, second];
    let others = other_frames(groups, 0, page_size);
    assert(groups[0] == first);
    assert(groups[1] == second);
    assert forall|pfn: u64| others.contains(pfn) == group_frames(second, page_size).contains(
        pfn,
    ) by {
        if others.contains(pfn) {
            let j = choose|j: int|
                0 <= j < groups.len() && j < groups.len() && (#[trigger] groups[j]).name@
                    != groups[0].name@ && group_frames(groups[j], page_size).contains(pfn);
            assert(j == 1);
        }
        if group_frames(second, page_size).contains(pfn) {
            assert(groups[1].name@ != groups[0].name@);
        }
    }
    assert(others =~= group_frames(second, page_size));
    assert(unique_frames(groups, 0, page_size) =~= group_frames(first, page_size).difference(
        group_frames(first, page_size).intersect(group_frames(second, page_size)),
    ));
}


/// The size in bytes of `info`'s frames, where it fits in 64 bits.
pub fn resident_size(info: &ProcessGroupInfo, page_size: u64) -> (size: Option<u64>)
    ensures
        size == if info@.pfns.len() * page_size <= u64::MAX {
            Some((info@.pfns.len() * page_size) as u64)
        } else {
            None
        },
{
    (info.pfns.len() as u64).checked_mul(page_size)
}

/// The footprint of each group, in the order of the groups.
fn aggregate_all(groups: &Vec<ProcessGroup>, page_size: u64) -> (r: Result<
    Vec<ProcessGroupInfo>,
    AggregateError,
>)
    ensures
        r is Ok <==> forall|i: int|
            0 <= i < groups.len() ==> (#[trigger] aggregation(groups[i].processes@, page_size))
                is Ok,
        r matches Ok(infos) ==> infos.len() == groups.len() && forall|i: int|
            0 <= i < groups.len() ==> (#[trigger] infos[i])@ == group_footprint(
                groups[i].processes@,
                page_size,
            ),
{
    let mut infos: Vec<ProcessGroupInfo> = Vec::new();
    let mut i: usize = 0;
    while i < groups.len()
        invariant
            i <= groups.len(),
            infos.len() == i,
            forall|k: int|
                0 <= k < i ==> (#[trigger] aggregation(groups[k].processes@, page_size)) is Ok,
            forall|k: int|
                0 <= k < i ==> (#[trigger] infos[k])@ == group_footprint(
                    groups[k].processes@,
                    page_size,
                ),
        decreases groups.len() - i,
    {
        match aggregate(&groups[i], page_size) {
            Ok(info) => {
                infos.push(info);
            },
            Err(e) => {
                assert(aggregation(groups[i as int].processes@, page_size) is Err);
                return Err(e);
            },
        }
        i += 1;
    }
    Ok(infos)
}

/// The frames of the groups whose name differs from that of the group at
/// `index`.
fn frames_of_others(
    groups: &Vec<ProcessGroup>,
    infos: &Vec<ProcessGroupInfo>,
    index: usize,
    page_size: u64,
) -> (others: OrderedSet<u64>)
    requires
        index < groups.len(),
        infos.len() == groups.len(),
        forall|i: int|
            0 <= i < groups.len() ==> (#[trigger] infos[i])@ == group_footprint(
                groups[i].processes@,
                page_size,
            ),
    ensures
        others@ == other_frames(groups@, index as int, page_size),
{
    let mut others: OrderedSet<u64> = OrderedSet::new();
    let mut j: usize = 0;
    assert(others@ =~= other_frames_before(groups@, index as int, 0, page_size));
    while j < groups.len()
        invariant
            j <= groups.len(),
            index < groups.len(),
            infos.len() == groups.len(),
            forall|i: int|
                0 <= i < groups.len() ==> (#[trigger] infos[i])@ == group_footprint(
                    groups[i].processes@,
                    page_size,
                ),
            others@ == other_frames_before(groups@, index as int, j as int, page_size),
        decreases groups.len() - j,
    {
        let ghost before = others@;
        let differs = groups[j].name != groups[index].name;
        if differs {
            others.extend(&infos[j].pfns);
        }
        proof {
            let added = if differs {
                group_frames(groups@[j as int], page_size)
            } else {
                Set::<u64>::empty()
            };
            assert(infos[j as int]@.pfns == group_frames(groups@[j as int], page_size));
            let next = other_frames_before(groups@, index as int, j + 1, page_size);
            assert forall|pfn: u64| next.contains(pfn) == before.union(added).contains(pfn) by {
                if next.contains(pfn) {
                    let k = choose|k: int|
                        0 <= k < j + 1 && k < groups.len() && (#[trigger] groups@[k]).name@
                            != groups@[index as int].name@ && group_frames(
                            groups@[k],
                            page_size,
                        ).contains(pfn);
                    if k < j {
                        assert(before.contains(pfn));
                    }
                }
                if before.contains(pfn) {
                    let k = choose|k: int|
                        0 <= k < j && k < groups.len() && (#[trigger] groups@[k]).name@
                            != groups@[index as int].name@ && group_frames(
                            groups@[k],
                            page_size,
                        ).contains(pfn);
                    assert(next.contains(pfn));
                }
                if added.contains(pfn) {
                    assert(groups@[j as int].name@ != groups@[index as int].name@);
                    assert(next.contains(pfn));
                }
            }
            assert(others@ =~= next);
        }
        j += 1;
    }
    others
}

/// The memory figures of every group of one partition, in the order of the
/// groups, on a machine whose pages have `page_size` bytes.
pub fn usage_report(groups: &Vec<ProcessGroup>, page_size: u64) -> (r: Result<
    Vec<GroupUsage>,
    AggregateError,
>)
    ensures
        r is Ok <==> usage_is_defined(groups@, page_size),
        r matches Ok(report) ==> report.len() == groups.len() && forall|i: int|
            0 <= i < groups.len() ==> is_usage_of(#[trigger] report[i], groups@, i, page_size),
{
    let infos = match aggregate_all(groups, page_size) {
        Ok(infos) => infos,
        Err(e) => {
            return Err(e);
        },
    };
    let mut report: Vec<GroupUsage> = Vec::new();
    let mut i: usize = 0;
    while i < groups.len()
        invariant
            i <= groups.len(),
            report.len() == i,
            infos.len() == groups.len(),
            forall|k: int|
                0 <= k < groups.len() ==> (#[trigger] aggregation(
                    groups[k].processes@,
                    page_size,
                )) is Ok,
            forall|k: int|
                0 <= k < groups.len() ==> (#[trigger] infos[k])@ == group_footprint(
                    groups[k].processes@,
                    page_size,
                ),
            forall|k: int|
                0 <= k < i ==> group_frames(#[trigger] groups[k], page_size).len() * page_size
                    <= u64::MAX,
            forall|k: int| 0 <= k < i ==> is_usage_of(#[trigger] report[k], groups@, k, page_size),
        decreases groups.len() - i,
    {
        let others = frames_of_others(groups, &infos, i, page_size);
        let unique = infos[i].pfns.difference(&others);
        let pfns = infos[i].pfns.len();
        let unique_pfns = unique.len();
        proof {
            assert(infos[i as int]@.pfns == group_frames(groups@[i as int], page_size));
            assert(unique@ == unique_frames(groups@, i as int, page_size));
            vstd::set_lib::lemma_len_difference(infos[i as int]@.pfns, others@);
            assert(unique_pfns * page_size <= pfns * page_size) by (nonlinear_arith)
                requires
                    unique_pfns <= pfns,
            ;
        }
        let rss = match (pfns as u64).checked_mul(page_size) {
            Some(rss) => rss,
            None => {
                proof {
                    let frames = group_frames(groups@[i as int], page_size);
                    assert(frames.len() * page_size > u64::MAX);
                    assert(aggregation(groups@[i as int].processes@, page_size) is Ok);
                    assert(!usage_is_defined(groups@, page_size));
                }
                return Err(AggregateError::Overflow);
            },
        };
        let uss = (unique_pfns as u64) * page_size;
        let usage = GroupUsage { name: groups[i].name.clone(), pfns, unique_pfns, rss, uss };
        report.push(usage);
        i += 1;
    }
    Ok(report)
}

} // verus!
