//! What it means for groups to partition a list of processes by a key.

use crate::group::ProcessGroup;
use crate::process::Process;
use vstd::prelude::*;

verus! {

/// The test whether a process has the key `k`.
pub open spec fn has_key<K>(key: spec_fn(Process) -> K, k: K) -> spec_fn(Process) -> bool {
    |p: Process| key(p) == k
}

/// The test whether a process has one of the keys `keys`.
pub open spec fn has_key_among<K>(key: spec_fn(Process) -> K, keys: Seq<K>) -> spec_fn(
    Process,
) -> bool {
    |p: Process| keys.contains(key(p))
}

/// The members of every group, group after group.
pub open spec fn all_members(groups: Seq<ProcessGroup>) -> Seq<Process>
    decreases groups.len(),
{
    if groups.len() == 0 {
        Seq::empty()
    } else {
        all_members(groups.drop_last()) + groups.last().processes@
    }
}

/// The keys of `s` in the order in which each occurs first.
pub open spec fn first_occurrences<K>(s: Seq<K>) -> Seq<K>
    decreases s.len(),
{
    if s.len() == 0 {
        Seq::empty()
    } else {
        let before = first_occurrences(s.drop_last());
        if before.contains(s.last()) {
            before
        } else {
            before.push(s.last())
        }
    }
}

/// Whether `groups` partition `processes` by `key`: the group at each index
/// holds, in their order in `processes`, the processes whose key is the key
/// at that index; no key is listed twice, and every process has a listed
/// key.
pub open spec fn is_partition_by<K>(
    groups: Seq<ProcessGroup>,
    keys: Seq<K>,
    processes: Seq<Process>,
    key: spec_fn(Process) -> K,
) -> bool {
    &&& groups.len() == keys.len()
    &&& keys.no_duplicates()
    &&& forall|i: int| 0 <= i < processes.len() ==> keys.contains(key(#[trigger] processes[i]))
    &&& forall|j: int|
        0 <= j < keys.len() ==> (#[trigger] groups[j]).processes@ == processes.filter(
            has_key(key, keys[j]),
        )
}

/// Whether the members of `groups` are `processes` in some order: each
/// process is a member as often as it is listed.
pub open spec fn is_rearrangement(groups: Seq<ProcessGroup>, processes: Seq<Process>) -> bool {
    all_members(groups).to_multiset() == processes.to_multiset()
}

/// A sequence filtered by a test that each element passes is the sequence.
proof fn lemma_filter_all<A>(s: Seq<A>, pred: spec_fn(A) -> bool)
    requires
        forall|i: int| 0 <= i < s.len() ==> pred(#[trigger] s[i]),
    ensures
        s.filter(pred) == s,
    decreases s.len(),
{
    reveal(Seq::filter);
    if s.len() > 0 {
        lemma_filter_all(s.drop_last(), pred);
        assert(s.drop_last().push(s.last()) =~= s);
    }
}

/// A sequence filtered by a test that no element passes is empty.
proof fn lemma_filter_none<A>(s: Seq<A>, pred: spec_fn(A) -> bool)
    requires
        forall|i: int| 0 <= i < s.len() ==> !pred(#[trigger] s[i]),
    ensures
        s.filter(pred) == Seq::<A>::empty(),
    decreases s.len(),
{
    reveal(Seq::filter);
    if s.len() > 0 {
        lemma_filter_none(s.drop_last(), pred);
    }
}

/// Where no element passes both tests, the elements that pass either are
/// those that pass the first together with those that pass the second.
proof fn lemma_filter_either<A>(
    s: Seq<A>,
    first: spec_fn(A) -> bool,
    second: spec_fn(A) -> bool,
    either: spec_fn(A) -> bool,
)
    requires
        forall|a: A| #[trigger] either(a) == (first(a) || second(a)),
        forall|a: A| !(#[trigger] first(a) && second(a)),
    ensures
        s.filter(either).to_multiset() == s.filter(first).to_multiset().add(
            s.filter(second).to_multiset(),
        ),
    decreases s.len(),
{
    broadcast use vstd::seq_lib::group_to_multiset_ensures;

    reveal(Seq::filter);
    if s.len() == 0 {
        assert(s.filter(either).to_multiset() =~= s.filter(first).to_multiset().add(
            s.filter(second).to_multiset(),
        ));
    } else {
        let rest = s.drop_last();
        let x = s.last();
        lemma_filter_either(rest, first, second, either);
        assert(either(x) == (first(x) || second(x)));
        assert(!(first(x) && second(x)));
        assert(s.filter(either).to_multiset() =~= s.filter(first).to_multiset().add(
            s.filter(second).to_multiset(),
        ));
    }
}

/// The processes with one of the keys `keys`, key after key.
pub open spec fn members_by_keys<K>(
    processes: Seq<Process>,
    key: spec_fn(Process) -> K,
    keys: Seq<K>,
) -> Seq<Process>
    decreases keys.len(),
{
    if keys.len() == 0 {
        Seq::empty()
    } else {
        members_by_keys(processes, key, keys.drop_last()) + processes.filter(
            has_key(key, keys.last()),
        )
    }
}

/// Listing the processes key after key rearranges the processes that have
/// one of the keys.
proof fn lemma_members_by_keys<K>(processes: Seq<Process>, key: spec_fn(Process) -> K, keys: Seq<K>)
    requires
        keys.no_duplicates(),
    ensures
        members_by_keys(processes, key, keys).to_multiset() == processes.filter(
            has_key_among(key, keys),
        ).to_multiset(),
    decreases keys.len(),
{
    if keys.len() == 0 {
        lemma_filter_none(processes, has_key_among(key, keys));
    } else {
        let shorter = keys.drop_last();
        let k = keys.last();
        lemma_members_by_keys(processes, key, shorter);
        vstd::seq_lib::lemma_multiset_commutative(
            members_by_keys(processes, key, shorter),
            processes.filter(has_key(key, k)),
        );
        assert forall|p: Process| #[trigger]
            has_key_among(key, keys)(p) == (has_key_among(key, shorter)(p) || has_key(key, k)(
                p,
            )) by {
            if keys.contains(key(p)) {
                let i = choose|i: int| 0 <= i < keys.len() && keys[i] == key(p);
                if i < shorter.len() {
                    assert(shorter[i] == key(p));
                }
            }
            if shorter.contains(key(p)) {
                let i = choose|i: int| 0 <= i < shorter.len() && shorter[i] == key(p);
                assert(keys[i] == key(p));
            }
            if key(p) == k {
                assert(keys[keys.len() - 1] == key(p));
            }
        }
        assert forall|p: Process| !(#[trigger] has_key_among(key, shorter)(p) && has_key(key, k)(
            p,
        )) by {
            if shorter.contains(key(p)) && key(p) == k {
                let i = choose|i: int| 0 <= i < shorter.len() && shorter[i] == key(p);
                assert(keys[i] == keys[keys.len() - 1]);
            }
        }
        lemma_filter_either(
            processes,
            has_key_among(key, shorter),
            has_key(key, k),
            has_key_among(key, keys),
        );
    }
}

/// The members of groups that partition by keys are the processes listed
/// key after key.
proof fn lemma_members_of_partition<K>(
    groups: Seq<ProcessGroup>,
    keys: Seq<K>,
    processes: Seq<Process>,
    key: spec_fn(Process) -> K,
)
    requires
        groups.len() == keys.len(),
        forall|j: int|
            0 <= j < keys.len() ==> (#[trigger] groups[j]).processes@ == processes.filter(
                has_key(key, keys[j]),
            ),
    ensures
        all_members(groups) == members_by_keys(processes, key, keys),
    decreases groups.len(),
{
    if groups.len() > 0 {
        let fewer = groups.drop_last();
        let shorter = keys.drop_last();
        assert forall|j: int| 0 <= j < shorter.len() implies (#[trigger] fewer[j]).processes@
            == processes.filter(has_key(key, shorter[j])) by {
            assert(fewer[j] == groups[j]);
        }
        lemma_members_of_partition(fewer, shorter, processes, key);
        assert(groups.last() == groups[groups.len() - 1]);
    }
}

/// The members of groups that partition a list of processes are those
/// processes in some order: each process of the list is a member of exactly
/// one group, once for each time it is listed.
pub proof fn lemma_partition_rearranges<K>(
    groups: Seq<ProcessGroup>,
    keys: Seq<K>,
    processes: Seq<Process>,
    key: spec_fn(Process) -> K,
)
    requires
        is_partition_by(groups, keys, processes, key),
    ensures
        is_rearrangement(groups, processes),
{
    lemma_members_of_partition(groups, keys, processes, key);
    lemma_members_by_keys(processes, key, keys);
    lemma_filter_all(processes, has_key_among(key, keys));
}

} // verus!
