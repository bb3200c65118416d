//! Named groups of processes and the footprint of a group.
//!
//! The footprint of a group is the union of the footprints of its members, so
//! a frame that several members share is held once.

use crate::ordered_set::OrderedSet;
use crate::pagemap::SwapSlot;
use crate::process::extract;
use crate::process::extraction;
use crate::process::lemma_mapped_sets_finite;
use crate::process::machine_page_size;
use crate::process::Footprint;
use crate::process::Process;
use vstd::prelude::*;
use vstd::std_specs::cmp::PartialEqSpecImpl;

verus! {

/// A named list of processes. Two groups are equal where their names are.
pub struct ProcessGroup {
    pub name: String,
    pub processes: Vec<Process>,
}

impl PartialEq for ProcessGroup {
    fn eq(&self, other: &Self) -> (r: bool) {
        self.name == other.name
    }
}

impl PartialEqSpecImpl for ProcessGroup {
    open spec fn obeys_eq_spec() -> bool {
        true
    }

    open spec fn eq_spec(&self, other: &Self) -> bool {
        self.name@ == other.name@
    }
}

/// The footprint of a group.
pub struct ProcessGroupInfo {
    /// The identities of the members that the footprint covers, in the order
    /// of the group.
    pub pids: Vec<i32>,
    /// The physical frames that back pages of any covered member.
    pub pfns: OrderedSet<u64>,
    /// The swap slots that hold pages of any covered member.
    pub swap_pages: OrderedSet<SwapSlot>,
    /// The sum of the page-table sizes of the covered members.
    pub pte: u64,
    /// The sum of the descriptor counts of the covered members.
    pub fds: usize,
}

/// The mathematical content of a [`ProcessGroupInfo`].
pub struct GroupFootprint {
    pub pids: Seq<i32>,
    pub pfns: Set<u64>,
    pub swap_pages: Set<SwapSlot>,
    pub pte: nat,
    pub fds: nat,
}

impl View for ProcessGroupInfo {
    type V = GroupFootprint;

    open spec fn view(&self) -> GroupFootprint {
        GroupFootprint {
            pids: self.pids@,
            pfns: self.pfns@,
            swap_pages: self.swap_pages@,
            pte: self.pte as nat,
            fds: self.fds as nat,
        }
    }
}

/// A total of a group does not fit its machine type.
#[derive(Clone, Copy, Debug, PartialEq, Eq, Structural)]
pub enum AggregateError {
    Overflow,
}

/// The footprint that a member adds to its group: none where its mappings
/// were not resolved or extraction gives no footprint.
pub open spec fn member_footprint(member: Process, page_size: u64) -> Option<Footprint> {
    match member.memory_maps {
        None => None,
        Some(maps) => match extraction(member, maps@, page_size) {
            Ok(Some(footprint)) => Some(footprint),
            _ => None,
        },
    }
}

/// The footprint of no member.
pub open spec fn empty_footprint() -> GroupFootprint {
    GroupFootprint {
        pids: Seq::empty(),
        pfns: Set::empty(),
        swap_pages: Set::empty(),
        pte: 0,
        fds: 0,
    }
}

/// The footprint `total` with the footprint of one more member.
pub open spec fn with_member(total: GroupFootprint, member: Footprint) -> GroupFootprint {
    GroupFootprint {
        pids: total.pids.push(member.pid),
        pfns: total.pfns.union(member.pfns),
        swap_pages: total.swap_pages.union(member.swap_pages),
        pte: total.pte + member.pte,
        fds: total.fds + member.fds,
    }
}

/// The footprint of the members, the members that add none left out.
pub open spec fn group_footprint(members: Seq<Process>, page_size: u64) -> GroupFootprint
    decreases members.len(),
{
    if members.len() == 0 {
        empty_footprint()
    } else {
        let rest = group_footprint(members.drop_last(), page_size);
        match member_footprint(members.last(), page_size) {
            None => rest,
            Some(footprint) => with_member(rest, footprint),
        }
    }
}

/// What aggregation gives for the members: their footprint, or an error
/// where a total does not fit.
pub open spec fn aggregation(members: Seq<Process>, page_size: u64) -> Result<
    GroupFootprint,
    AggregateError,
> {
    let total = group_footprint(members, page_size);
    if total.pte > u64::MAX || total.fds > usize::MAX {
        Err(AggregateError::Overflow)
    } else {
        Ok(total)
    }
}

/// Whether the result `r` is what `model` describes.
pub open spec fn aggregate_matches(
    r: Result<ProcessGroupInfo, AggregateError>,
    model: Result<GroupFootprint, AggregateError>,
) -> bool {
    match model {
        Ok(expected) => r matches Ok(info) && info@ == expected,
        Err(e) => r matches Err(x) && x == e,
    }
}

/// The totals over a prefix of the members are no greater than the totals
/// over all of them.
pub proof fn lemma_prefix_totals(members: Seq<Process>, n: int, page_size: u64)
    requires
        0 <= n <= members.len(),
    ensures
        group_footprint(members.take(n), page_size).pte <= group_footprint(
            members,
            page_size,
        ).pte,
        group_footprint(members.take(n), page_size).fds <= group_footprint(
            members,
            page_size,
        ).fds,
    decreases members.len(),
{
    if n == members.len() {
        assert(members.take(n) =~= members);
    } else {
        lemma_prefix_totals(members.drop_last(), n, page_size);
        assert(members.drop_last().take(n) =~= members.take(n));
    }
}

/// The frames that a member adds to its group.
pub open spec fn member_frames(member: Process, page_size: u64) -> Set<u64> {
    match member_footprint(member, page_size) {
        Some(footprint) => footprint.pfns,
        None => Set::empty(),
    }
}

/// The sum, over the members, of the number of frames that each adds.
pub open spec fn member_frame_counts(members: Seq<Process>, page_size: u64) -> nat
    decreases members.len(),
{
    if members.len() == 0 {
        0
    } else {
        member_frame_counts(members.drop_last(), page_size) + member_frames(
            members.last(),
            page_size,
        ).len()
    }
}

/// Whether no two members have a frame in common.
pub open spec fn frames_pairwise_disjoint(members: Seq<Process>, page_size: u64) -> bool {
    forall|i: int, j: int|
        0 <= i < j < members.len() ==> member_frames(#[trigger] members[i], page_size).disjoint(
            member_frames(#[trigger] members[j], page_size),
        )
}

/// The frames that a member adds are finitely many.
pub proof fn lemma_member_frames_finite(member: Process, page_size: u64)
    ensures
        member_frames(member, page_size).finite(),
{
    match member.memory_maps {
        Some(maps) => {
            lemma_mapped_sets_finite(maps@);
        },
        None => {},
    }
}

/// The frames of a group are the frames of its members, and finitely many.
pub proof fn lemma_group_frames(members: Seq<Process>, page_size: u64)
    ensures
        group_footprint(members, page_size).pfns.finite(),
        forall|pfn: u64|
            group_footprint(members, page_size).pfns.contains(pfn) <==> exists|i: int|
                0 <= i < members.len() && member_frames(#[trigger] members[i], page_size).contains(
                    pfn,
                ),
    decreases members.len(),
{
    if members.len() > 0 {
        let rest = members.drop_last();
        let last = members.last();
        lemma_group_frames(rest, page_size);
        lemma_member_frames_finite(last, page_size);
        let before = group_footprint(rest, page_size).pfns;
        let now = group_footprint(members, page_size).pfns;
        assert(now =~= before.union(member_frames(last, page_size)));
        assert forall|pfn: u64| now.contains(pfn) <==> exists|i: int|
            0 <= i < members.len() && member_frames(#[trigger] members[i], page_size).contains(
                pfn,
            ) by {
            if before.contains(pfn) {
                let i = choose|i: int|
                    0 <= i < rest.len() && member_frames(#[trigger] rest[i], page_size).contains(
                        pfn,
                    );
                assert(member_frames(members[i], page_size).contains(pfn));
            }
            if member_frames(last, page_size).contains(pfn) {
                assert(member_frames(members[members.len() - 1], page_size).contains(pfn));
            }
            if exists|i: int|
                0 <= i < members.len() && member_frames(#[trigger] members[i], page_size).contains(
                    pfn,
                ) {
                let i = choose|i: int|
                    0 <= i < members.len() && member_frames(
                        #[trigger] members[i],
                        page_size,
                    ).contains(pfn);
                if i < rest.len() {
                    assert(member_frames(rest[i], page_size).contains(pfn));
                }
            }
        }
    }
}

/// A group has no more frames than its members have between them, and as
/// many exactly where no two members have a frame in common.
pub proof fn lemma_group_frames_bound(members: Seq<Process>, page_size: u64)
    ensures
        group_footprint(members, page_size).pfns.len() <= member_frame_counts(members, page_size),
        group_footprint(members, page_size).pfns.len() == member_frame_counts(members, page_size)
            <==> frames_pairwise_disjoint(members, page_size),
    decreases members.len(),
{
    if members.len() > 0 {
        let rest = members.drop_last();
        let last = members.last();
        let n = rest.len() as int;
        lemma_group_frames_bound(rest, page_size);
        lemma_group_frames(rest, page_size);
        lemma_member_frames_finite(last, page_size);
        let before = group_footprint(rest, page_size).pfns;
        let added = member_frames(last, page_size);
        let now = group_footprint(members, page_size).pfns;
        assert(now =~= before.union(added));
        vstd::set_lib::lemma_set_intersect_union_lens(before, added);
        vstd::set_lib::lemma_len_intersect(before, added);
        let common = before.intersect(added);
        assert forall|i: int, j: int| 0 <= i < j < rest.len() implies (member_frames(
            #[trigger] rest[i],
            page_size,
        ).disjoint(member_frames(#[trigger] rest[j], page_size)) <==> member_frames(
            members[i],
            page_size,
        ).disjoint(member_frames(members[j], page_size))) by {}
        if frames_pairwise_disjoint(members, page_size) {
            assert(frames_pairwise_disjoint(rest, page_size)) by {
                assert forall|i: int, j: int| 0 <= i < j < rest.len() implies member_frames(
                    #[trigger] rest[i],
                    page_size,
                ).disjoint(member_frames(#[trigger] rest[j], page_size)) by {
                    assert(member_frames(members[i], page_size).disjoint(
                        member_frames(members[j], page_size),
                    ));
                }
            }
            assert(common =~= Set::<u64>::empty()) by {
                assert forall|pfn: u64| !common.contains(pfn) by {
                    if before.contains(pfn) && added.contains(pfn) {
                        let i = choose|i: int|
                            0 <= i < rest.len() && member_frames(
                                #[trigger] rest[i],
                                page_size,
                            ).contains(pfn);
                        assert(member_frames(members[i], page_size).disjoint(
                            member_frames(members[n], page_size),
                        ));
                    }
                }
            }
        }
        if now.len() == member_frame_counts(members, page_size) {
            assert(common.len() == 0);
            assert(common.finite());
            assert(common =~= Set::<u64>::empty()) by {
                if !common.is_empty() {
                    let x = common.choose();
                    assert(common.contains(x));
                    assert(common.remove(x).len() + 1 == common.len());
                }
            }
            assert forall|i: int, j: int| 0 <= i < j < members.len() implies member_frames(
                #[trigger] members[i],
                page_size,
            ).disjoint(member_frames(#[trigger] members[j], page_size)) by {
                if j < n {
                    assert(member_frames(rest[i], page_size).disjoint(
                        member_frames(rest[j], page_size),
                    ));
                } else {
                    assert forall|pfn: u64|
                        !(member_frames(members[i], page_size).contains(pfn) && added.contains(
                            pfn,
                        )) by {
                        if member_frames(members[i], page_size).contains(pfn) && added.contains(
                            pfn,
                        ) {
                            assert(member_frames(rest[i], page_size).contains(pfn));
                            assert(before.contains(pfn));
                            assert(common.contains(pfn));
                        }
                    }
                }
            }
        }
    } else {
        assert(group_footprint(members, page_size).pfns =~= Set::<u64>::empty());
    }
}

/// Aggregating the same members twice gives the same footprint: two results
/// for one list of members agree in whether they are a footprint, and in
/// every part of it.
pub proof fn lemma_aggregate_is_repeatable(
    first: Result<ProcessGroupInfo, AggregateError>,
    second: Result<ProcessGroupInfo, AggregateError>,
    members: Seq<Process>,
    page_size: u64,
)
    requires
        aggregate_matches(first, aggregation(members, page_size)),
        aggregate_matches(second, aggregation(members, page_size)),
    ensures
        first is Ok <==> second is Ok,
        first is Ok ==> first->Ok_0@ == second->Ok_0@,
        first is Err ==> first->Err_0 == second->Err_0,
{
}


/// The footprint of a group from the snapshots of its members, on a machine
/// whose pages have `page_size` bytes.
///
/// A member whose mappings were not resolved is left out, and so is one for
/// which extraction gives nothing or fails.
pub fn aggregate(group: &ProcessGroup, page_size: u64) -> (r: Result<
    ProcessGroupInfo,
    AggregateError,
>)
    ensures
        aggregate_matches(r, aggregation(group.processes@, page_size)),
{
    let mut info = ProcessGroupInfo {
        pids: Vec::new(),
        pfns: OrderedSet::new(),
        swap_pages: OrderedSet::new(),
        pte: 0,
        fds: 0,
    };
    let mut i: usize = 0;
    assert(group.processes@.take(0) =~= Seq::<Process>::empty());
    while i < group.processes.len()
        invariant
            i <= group.processes.len(),
            info@ == group_footprint(group.processes@.take(i as int), page_size),
        decreases group.processes.len() - i,
    {
        let ghost members = group.processes@;
        let ghost before = info@;
        proof {
            assert(members.take(i + 1).drop_last() =~= members.take(i as int));
            assert(members.take(i + 1).last() == members[i as int]);
            lemma_prefix_totals(members, i + 1, page_size);
        }
        let member = &group.processes[i];
        let extracted = match &member.memory_maps {
            Some(maps) => match extract(member, maps.as_slice(), page_size) {
                Ok(Some(found)) => Some(found),
                _ => None,
            },
            None => None,
        };
        match extracted {
            Some(found) => {
                assert(member_footprint(members[i as int], page_size) == Some(found@));
                let pte = match info.pte.checked_add(found.pte) {
                    Some(pte) => pte,
                    None => {
                        return Err(AggregateError::Overflow);
                    },
                };
                let fds = match info.fds.checked_add(found.fds) {
                    Some(fds) => fds,
                    None => {
                        return Err(AggregateError::Overflow);
                    },
                };
                info.pids.push(found.pid);
                info.pfns.extend(&found.pfns);
                info.swap_pages.extend(&found.swap_pages);
                info.pte = pte;
                info.fds = fds;
                assert(info@ == with_member(before, found@));
            },
            None => {
                assert(member_footprint(members[i as int], page_size) is None);
            },
        }
        i += 1;
    }
    assert(group.processes@.take(group.processes.len() as int) =~= group.processes@);
    Ok(info)
}

/// The footprint of a group from the snapshots of its members, with the page
/// size of this machine.
pub fn processes_group_info(group: &ProcessGroup) -> (r: Result<ProcessGroupInfo, AggregateError>)
    ensures
        exists|page_size: u64| #[trigger]
            aggregate_matches(r, aggregation(group.processes@, page_size)),
{
    let page_size = machine_page_size();
    let r = aggregate(group, page_size);
    assert(aggregate_matches(r, aggregation(group.processes@, page_size)));
    r
}

} // verus!
