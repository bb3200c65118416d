//! Strategies that partition a list of processes into named groups.

use crate::group::ProcessGroup;
use crate::ordered_set::lemma_increasing_lists_once;
use crate::ordered_set::lemma_push_to_set;
use crate::ordered_set::lower_bound;
use crate::ordered_set::strictly_increasing;
use crate::ordered_set::OrderedSet;
use crate::ordered_set::SetKey;
use crate::partition::all_members;
use crate::partition::first_occurrences;
use crate::partition::has_key;
use crate::partition::is_partition_by;
use crate::partition::is_rearrangement;
use crate::partition::lemma_partition_rearranges;
use crate::process::Process;
use vstd::prelude::*;
use vstd::string::StringExecFns;

verus! {

/// Why a list of processes could not be split.
#[derive(Clone, Copy, Debug, PartialEq, Eq, Structural)]
pub enum SplitError {
    /// The account with this identifier has no name.
    UnknownAccount(u32),
}

/// A strategy that partitions processes into named groups.
pub trait ProcessSplitter: Sized {
    /// The groups of the last split, in the order in which they are reported.
    spec fn groups_view(&self) -> Seq<ProcessGroup>;

    /// Partitions `processes` and replaces the groups held so far. Where it
    /// fails, the groups held so far stay.
    fn split(&mut self, processes: Vec<Process>) -> (r: Result<(), SplitError>)
        ensures
            r is Ok ==> is_rearrangement(final(self).groups_view(), processes@),
            r is Err ==> final(self).groups_view() == old(self).groups_view(),
    ;

    /// The groups of the last split.
    fn iter_groups(&self) -> (groups: &Vec<ProcessGroup>)
        ensures
            groups@ == self.groups_view(),
    ;

    /// The members of every group, group after group.
    fn collect_processes(self) -> (processes: Vec<Process>)
        ensures
            processes@ == all_members(self.groups_view()),
    ;
}

/// Reclaiming the members after a split gives the processes that were split,
/// in some order: none is dropped and none is listed more often than it was.
pub proof fn lemma_reclaim_rearranges(
    groups: Seq<ProcessGroup>,
    processes: Seq<Process>,
    reclaimed: Seq<Process>,
)
    requires
        is_rearrangement(groups, processes),
        reclaimed == all_members(groups),
    ensures
        reclaimed.to_multiset() == processes.to_multiset(),
        reclaimed.len() == processes.len(),
{
    reclaimed.to_multiset_ensures();
    processes.to_multiset_ensures();
}


/// The elements of `v` from the last to the first.
fn reversed<T>(v: Vec<T>) -> (r: Vec<T>)
    ensures
        r.len() == v.len(),
        forall|i: int| 0 <= i < r.len() ==> r[i] == v[v.len() - 1 - i],
{
    let mut v = v;
    let ghost all = v@;
    let mut r: Vec<T> = Vec::new();
    while v.len() > 0
        invariant
            v.len() + r.len() == all.len(),
            v@ == all.take(v.len() as int),
            forall|i: int| 0 <= i < r.len() ==> r[i] == all[all.len() - 1 - i],
        decreases v.len(),
    {
        let x = v.pop().unwrap();
        r.push(x);
    }
    r
}

/// The first `n` processes that are assigned to the group `j`, in their
/// order.
pub open spec fn members_at(processes: Seq<Process>, slots: Seq<usize>, j: int, n: int) -> Seq<
    Process,
>
    decreases n,
{
    if n <= 0 {
        Seq::empty()
    } else {
        let before = members_at(processes, slots, j, n - 1);
        if slots[n - 1] == j {
            before.push(processes[n - 1])
        } else {
            before
        }
    }
}

/// Where each process is assigned to the group of its key, the group of a
/// key holds the processes with that key.
pub proof fn lemma_members_at<K>(
    processes: Seq<Process>,
    slots: Seq<usize>,
    keys: Seq<K>,
    key: spec_fn(Process) -> K,
    j: int,
    n: int,
)
    requires
        0 <= n <= processes.len(),
        slots.len() == processes.len(),
        keys.no_duplicates(),
        0 <= j < keys.len(),
        forall|i: int|
            0 <= i < processes.len() ==> (#[trigger] slots[i]) < keys.len() && keys[slots[i] as int]
                == key(processes[i]),
    ensures
        members_at(processes, slots, j, n) == processes.take(n).filter(has_key(key, keys[j])),
    decreases n,
{
    reveal(Seq::filter);
    if n > 0 {
        lemma_members_at(processes, slots, keys, key, j, n - 1);
        let p = processes[n - 1];
        assert(processes.take(n) =~= processes.take(n - 1).push(p));
        assert(processes.take(n).drop_last() =~= processes.take(n - 1));
        assert(slots[n - 1] < keys.len() && keys[slots[n - 1] as int] == key(p));
    }
}

/// One group for each label, holding the processes assigned to it in their
/// order.
fn fill(labels: &Vec<String>, processes: Vec<Process>, slots: &Vec<usize>) -> (groups: Vec<
    ProcessGroup,
>)
    requires
        slots.len() == processes.len(),
        forall|i: int| 0 <= i < slots.len() ==> (#[trigger] slots[i]) < labels.len(),
    ensures
        groups.len() == labels.len(),
        forall|j: int| 0 <= j < groups.len() ==> (#[trigger] groups[j]).name@ == labels[j]@,
        forall|j: int|
            0 <= j < groups.len() ==> (#[trigger] groups[j]).processes@ == members_at(
                processes@,
                slots@,
                j,
                processes.len() as int,
            ),
{
    let ghost all = processes@;
    let mut groups: Vec<ProcessGroup> = Vec::new();
    let mut j: usize = 0;
    while j < labels.len()
        invariant
            j <= labels.len(),
            groups.len() == j,
            forall|k: int| 0 <= k < j ==> (#[trigger] groups[k]).name@ == labels[k]@,
            forall|k: int| 0 <= k < j ==> (#[trigger] groups[k]).processes@ == Seq::<
                Process,
            >::empty(),
        decreases labels.len() - j,
    {
        groups.push(ProcessGroup { name: labels[j].clone(), processes: Vec::new() });
        j += 1;
    }
    let mut rest = reversed(processes);
    let mut n: usize = 0;
    while rest.len() > 0
        invariant
            rest.len() + n == all.len(),
            slots.len() == all.len(),
            forall|i: int| 0 <= i < slots.len() ==> (#[trigger] slots[i]) < labels.len(),
            forall|i: int| 0 <= i < rest.len() ==> rest[i] == all[all.len() - 1 - i],
            groups.len() == labels.len(),
            forall|k: int| 0 <= k < groups.len() ==> (#[trigger] groups[k]).name@ == labels[k]@,
            forall|k: int|
                0 <= k < groups.len() ==> (#[trigger] groups[k]).processes@ == members_at(
                    all,
                    slots@,
                    k,
                    n as int,
                ),
        decreases rest.len(),
    {
        let ghost before = groups@;
        let p = rest.pop().unwrap();
        assert(p == all[n as int]);
        let slot = slots[n];
        let mut members: Vec<Process> = Vec::new();
        core::mem::swap(&mut members, &mut groups[slot].processes);
        members.push(p);
        core::mem::swap(&mut members, &mut groups[slot].processes);
        n += 1;
        assert forall|k: int| 0 <= k < groups.len() implies (#[trigger] groups[k]).processes@
            == members_at(all, slots@, k, n as int) by {
            assert(before[k].processes@ == members_at(all, slots@, k, n - 1));
        }
    }
    groups
}

/// The members of every group, group after group.
fn flatten(groups: Vec<ProcessGroup>) -> (processes: Vec<Process>)
    ensures
        processes@ == all_members(groups@),
{
    let ghost all = groups@;
    let mut rest = reversed(groups);
    let mut processes: Vec<Process> = Vec::new();
    let mut n: usize = 0;
    assert(all.take(0) =~= Seq::<ProcessGroup>::empty());
    while rest.len() > 0
        invariant
            all.len() <= usize::MAX,
            rest.len() + n == all.len(),
            forall|i: int| 0 <= i < rest.len() ==> rest[i] == all[all.len() - 1 - i],
            processes@ == all_members(all.take(n as int)),
        decreases rest.len(),
    {
        let mut group = rest.pop().unwrap();
        assert(group == all[n as int]);
        processes.append(&mut group.processes);
        proof {
            assert(all.take(n + 1).drop_last() =~= all.take(n as int));
            assert(all.take(n + 1).last() == all[n as int]);
        }
        n += 1;
    }
    assert(all.take(all.len() as int) =~= all);
    processes
}

/// The key by owning account: the numeric identifier of the owner.
pub open spec fn uid_key() -> spec_fn(Process) -> u32 {
    |p: Process| p.uid
}

/// The accounts that own a process of `processes`.
pub open spec fn account_ids(processes: Seq<Process>) -> Set<u32> {
    Set::new(|uid: u32| exists|i: int| 0 <= i < processes.len() && (#[trigger] processes[i]).uid == uid)
}

/// The name of the group of the account named `name`.
pub open spec fn account_label(name: Seq<char>) -> Seq<char> {
    "user "@ + name
}

/// The name that `directory` gives for the account `uid`: that of the first
/// entry for it.
pub open spec fn directory_name(directory: Seq<(u32, String)>, uid: u32) -> Option<Seq<char>>
    decreases directory.len(),
{
    if directory.len() == 0 {
        None
    } else if directory.first().0 == uid {
        Some(directory.first().1@)
    } else {
        directory_name(directory.drop_first(), uid)
    }
}

/// Whether `keys` and `groups` are the split of `processes` by owning
/// account: one group for each account that owns a process, in the order of
/// the identifiers, each holding the processes of its account in their order.
pub open spec fn is_split_by_uid(
    keys: Seq<u32>,
    groups: Seq<ProcessGroup>,
    processes: Seq<Process>,
) -> bool {
    &&& strictly_increasing(keys)
    &&& keys.to_set() == account_ids(processes)
    &&& groups.len() == keys.len()
    &&& forall|j: int|
        0 <= j < keys.len() ==> (#[trigger] groups[j]).processes@ == processes.filter(
            has_key(uid_key(), keys[j]),
        )
}

/// A split by owning account partitions the processes by that key.
pub proof fn lemma_split_by_uid_partitions(
    keys: Seq<u32>,
    groups: Seq<ProcessGroup>,
    processes: Seq<Process>,
)
    requires
        is_split_by_uid(keys, groups, processes),
    ensures
        is_partition_by(groups, keys, processes, uid_key()),
        is_rearrangement(groups, processes),
{
    lemma_increasing_lists_once(keys);
    assert forall|i: int| 0 <= i < processes.len() implies keys.contains(
        uid_key()(#[trigger] processes[i]),
    ) by {
        assert(account_ids(processes).contains(processes[i].uid));
        assert(keys.to_set().contains(processes[i].uid));
    }
    lemma_partition_rearranges(groups, keys, processes, uid_key());
}

/// `users::get_user_by_uid`, then `User::name`: the name that the user
/// database of this machine has for the account `uid`, where it has one.
/// The answer depends on the machine, so nothing is claimed of it.
#[verifier::external_body]
fn account_name(uid: u32) -> Option<String> {
    match users::get_user_by_uid(uid) {
        Some(user) => Some(user.name().to_string_lossy().into_owned()),
        None => None,
    }
}

/// The identifiers of the accounts that own a process, in increasing order.
fn account_keys(processes: &Vec<Process>) -> (keys: Vec<u32>)
    ensures
        strictly_increasing(keys@),
        keys@.to_set() == account_ids(processes@),
{
    let mut uids: Vec<u32> = Vec::new();
    let mut i: usize = 0;
    assert(uids@.to_set() =~= account_ids(processes@.take(0)));
    while i < processes.len()
        invariant
            i <= processes.len(),
            uids@.to_set() == account_ids(processes@.take(i as int)),
        decreases processes.len() - i,
    {
        let ghost before = uids@;
        uids.push(processes[i].uid);
        proof {
            lemma_push_to_set(before, processes@[i as int].uid);
            let shorter = processes@.take(i as int);
            let longer = processes@.take(i + 1);
            assert forall|uid: u32|
                account_ids(longer).contains(uid) == account_ids(shorter).insert(
                    processes@[i as int].uid,
                ).contains(uid) by {
                if account_ids(longer).contains(uid) {
                    let k = choose|k: int| 0 <= k < longer.len() && (#[trigger] longer[k]).uid == uid;
                    if k < i {
                        assert(shorter[k].uid == uid);
                    }
                }
                if account_ids(shorter).contains(uid) {
                    let k = choose|k: int|
                        0 <= k < shorter.len() && (#[trigger] shorter[k]).uid == uid;
                    assert(longer[k].uid == uid);
                }
                if uid == processes@[i as int].uid {
                    assert(longer[i as int].uid == uid);
                }
            }
            assert(uids@.to_set() =~= account_ids(longer));
        }
        i += 1;
    }
    assert(processes@.take(processes.len() as int) =~= processes@);
    OrderedSet::from_vec(&uids).to_vec()
}

/// For each process, the index in `keys` of the account that owns it.
fn account_slots(processes: &Vec<Process>, keys: &Vec<u32>) -> (slots: Vec<usize>)
    requires
        strictly_increasing(keys@),
        keys@.to_set() == account_ids(processes@),
    ensures
        slots.len() == processes.len(),
        forall|i: int|
            0 <= i < processes.len() ==> (#[trigger] slots[i]) < keys.len() && keys[slots[i] as int]
                == processes[i].uid,
{
    let mut slots: Vec<usize> = Vec::new();
    let mut i: usize = 0;
    while i < processes.len()
        invariant
            i <= processes.len(),
            slots.len() == i,
            strictly_increasing(keys@),
            keys@.to_set() == account_ids(processes@),
            forall|k: int|
                0 <= k < i ==> (#[trigger] slots[k]) < keys.len() && keys[slots[k] as int]
                    == processes[k].uid,
        decreases processes.len() - i,
    {
        let uid = processes[i].uid;
        let pos = lower_bound(keys, &uid);
        proof {
            assert(account_ids(processes@).contains(uid));
            assert(keys@.to_set().contains(uid));
            assert(keys@.contains(uid));
            let k = choose|k: int| 0 <= k < keys@.len() && keys@[k] == uid;
            if k < pos {
                assert(keys@[k].rank() < uid.rank());
            }
            if pos < k {
                assert(keys@[pos as int].rank() >= uid.rank());
                assert(keys@[pos as int].rank() < keys@[k].rank());
            }
            assert(k == pos);
        }
        slots.push(pos);
        i += 1;
    }
    slots
}

/// The name that `directory` gives for the account `uid`.
fn lookup_name(directory: &Vec<(u32, String)>, uid: u32) -> (name: Option<String>)
    ensures
        name is Some <==> directory_name(directory@, uid) is Some,
        name matches Some(n) ==> Some(n@) == directory_name(directory@, uid),
{
    let mut i: usize = 0;
    assert(directory@.skip(0) =~= directory@);
    while i < directory.len()
        invariant
            i <= directory.len(),
            directory_name(directory@, uid) == directory_name(directory@.skip(i as int), uid),
        decreases directory.len() - i,
    {
        proof {
            assert(directory@.skip(i as int).first() == directory@[i as int]);
            assert(directory@.skip(i as int).drop_first() =~= directory@.skip(i + 1));
        }
        if directory[i].0 == uid {
            return Some(directory[i].1.clone());
        }
        i += 1;
    }
    None
}

/// The name of the group of the account named `name`.
fn label_of(name: &String) -> (label: String)
    ensures
        label@ == account_label(name@),
{
    let mut label = String::from_str("user ");
    label.append(name.as_str());
    label
}

/// Groups of processes by owning account, in the order of the account
/// identifiers.
pub struct ProcessSplitterByUid {
    keys: Vec<u32>,
    groups: Vec<ProcessGroup>,
}

impl ProcessSplitterByUid {
    /// The identifiers of the accounts of the groups, group by group.
    pub closed spec fn keys_view(&self) -> Seq<u32> {
        self.keys@
    }

    /// A splitter that holds no group.
    pub fn new() -> (splitter: Self)
        ensures
            splitter.groups_view() == Seq::<ProcessGroup>::empty(),
            splitter.keys_view() == Seq::<u32>::empty(),
    {
        ProcessSplitterByUid { keys: Vec::new(), groups: Vec::new() }
    }

    /// The identifiers of the accounts of the groups, group by group.
    pub fn account_ids(&self) -> (keys: &Vec<u32>)
        ensures
            keys@ == self.keys_view(),
    {
        &self.keys
    }

    /// Partitions `processes` by owning account and names each group after
    /// the name that `directory` gives for its account.
    ///
    /// It fails where an account that owns a process has no name in
    /// `directory`, and reports the least identifier of such an account.
    pub fn split_with_names(&mut self, processes: Vec<Process>, directory: &Vec<(u32, String)>) -> (r:
        Result<(), SplitError>)
        ensures
            r is Ok <==> forall|uid: u32| #[trigger]
                account_ids(processes@).contains(uid) ==> directory_name(directory@, uid) is Some,
            r is Ok ==> {
                &&& is_split_by_uid(final(self).keys_view(), final(self).groups_view(), processes@)
                &&& forall|j: int|
                    0 <= j < final(self).keys_view().len() ==> Some(
                        (#[trigger] final(self).groups_view()[j]).name@,
                    ) == match directory_name(directory@, final(self).keys_view()[j]) {
                        Some(name) => Some(account_label(name)),
                        None => None,
                    }
            },
            r matches Err(SplitError::UnknownAccount(uid)) ==> {
                &&& account_ids(processes@).contains(uid)
                &&& directory_name(directory@, uid) is None
                &&& forall|other: u32| #[trigger]
                    account_ids(processes@).contains(other) && other < uid ==> directory_name(
                        directory@,
                        other,
                    ) is Some
                &&& *final(self) == *old(self)
            },
    {
        let keys = account_keys(&processes);
        let mut labels: Vec<String> = Vec::new();
        let mut j: usize = 0;
        while j < keys.len()
            invariant
                j <= keys.len(),
                labels.len() == j,
                strictly_increasing(keys@),
                keys@.to_set() == account_ids(processes@),
                *self == *old(self),
                forall|k: int|
                    0 <= k < j ==> Some((#[trigger] labels[k])@) == match directory_name(
                        directory@,
                        keys[k],
                    ) {
                        Some(name) => Some(account_label(name)),
                        None => None,
                    },
            decreases keys.len() - j,
        {
            match lookup_name(directory, keys[j]) {
                Some(name) => {
                    labels.push(label_of(&name));
                },
                None => {
                    proof {
                        let missing = keys@[j as int];
                        assert(keys@.contains(missing));
                        assert(keys@.to_set().contains(missing));
                        assert forall|other: u32| #[trigger]
                            account_ids(processes@).contains(other) && other
                                < missing implies directory_name(directory@, other) is Some by {
                            assert(keys@.to_set().contains(other));
                            assert(keys@.contains(other));
                            let k = choose|k: int| 0 <= k < keys@.len() && keys@[k] == other;
                            if k > j {
                                assert(keys@[j as int].rank() < keys@[k].rank());
                            }
                            assert(k < j);
                            assert(labels[k]@ == labels[k]@);
                        }
                    }
                    return Err(SplitError::UnknownAccount(keys[j]));
                },
            }
            j += 1;
        }
        proof {
            assert forall|uid: u32| #[trigger]
                account_ids(processes@).contains(uid) implies directory_name(directory@, uid)
                is Some by {
                assert(keys@.to_set().contains(uid));
                assert(keys@.contains(uid));
                let k = choose|k: int| 0 <= k < keys@.len() && keys@[k] == uid;
                assert(labels[k]@ == labels[k]@);
            }
        }
        self.install(keys, &labels, processes);
        Ok(())
    }

    /// Replaces the groups by the split of `processes` by the accounts
    /// `keys`, the group of each account named by the label at its index.
    fn install(&mut self, keys: Vec<u32>, labels: &Vec<String>, processes: Vec<Process>)
        requires
            strictly_increasing(keys@),
            keys@.to_set() == account_ids(processes@),
            labels.len() == keys.len(),
        ensures
            final(self).keys_view() == keys@,
            is_split_by_uid(keys@, final(self).groups_view(), processes@),
            forall|j: int|
                0 <= j < keys.len() ==> (#[trigger] final(self).groups_view()[j]).name@
                    == labels[j]@,
    {
        let slots = account_slots(&processes, &keys);
        let ghost all = processes@;
        let groups = fill(labels, processes, &slots);
        proof {
            lemma_increasing_lists_once(keys@);
            assert forall|j: int| 0 <= j < keys.len() implies (#[trigger] groups@[j]).processes@
                == all.filter(has_key(uid_key(), keys@[j])) by {
                lemma_members_at(all, slots@, keys@, uid_key(), j, all.len() as int);
                assert(all.take(all.len() as int) =~= all);
            }
        }
        self.keys = keys;
        self.groups = groups;
    }
}

impl ProcessSplitter for ProcessSplitterByUid {
    closed spec fn groups_view(&self) -> Seq<ProcessGroup> {
        self.groups@
    }

    /// Partitions `processes` by owning account and names each group after
    /// the name that the user database of this machine has for its account.
    ///
    /// It fails where the database has no name for an account that owns a
    /// process.
    fn split(&mut self, processes: Vec<Process>) -> (r: Result<(), SplitError>)
        ensures
            r is Ok ==> {
                &&& is_split_by_uid(final(self).keys_view(), final(self).groups_view(), processes@)
                &&& forall|j: int|
                    0 <= j < final(self).keys_view().len() ==> exists|name: Seq<char>|
                        (#[trigger] final(self).groups_view()[j]).name@ == account_label(name)
            },
            r matches Err(SplitError::UnknownAccount(uid)) ==> {
                &&& account_ids(processes@).contains(uid)
                &&& *final(self) == *old(self)
            },
    {
        let keys = account_keys(&processes);
        let mut labels: Vec<String> = Vec::new();
        let mut j: usize = 0;
        while j < keys.len()
            invariant
                j <= keys.len(),
                labels.len() == j,
                strictly_increasing(keys@),
                keys@.to_set() == account_ids(processes@),
                *self == *old(self),
                forall|k: int|
                    0 <= k < j ==> exists|name: Seq<char>| (#[trigger] labels[k])@ == account_label(
                        name,
                    ),
            decreases keys.len() - j,
        {
            match account_name(keys[j]) {
                Some(name) => {
                    let label = label_of(&name);
                    assert(label@ == account_label(name@));
                    labels.push(label);
                },
                None => {
                    proof {
                        assert(keys@.contains(keys@[j as int]));
                        assert(keys@.to_set().contains(keys@[j as int]));
                    }
                    return Err(SplitError::UnknownAccount(keys[j]));
                },
            }
            j += 1;
        }
        self.install(keys, &labels, processes);
        proof {
            lemma_split_by_uid_partitions(self.keys@, self.groups@, processes@);
            assert forall|k: int| 0 <= k < self.keys@.len() implies exists|name: Seq<char>|
                (#[trigger] self.groups@[k]).name@ == account_label(name) by {
                let name = choose|name: Seq<char>| (#[trigger] labels[k])@ == account_label(name);
                assert(self.groups@[k].name@ == account_label(name));
            }
        }
        Ok(())
    }

    fn iter_groups(&self) -> (groups: &Vec<ProcessGroup>) {
        &self.groups
    }

    fn collect_processes(self) -> (processes: Vec<Process>) {
        flatten(self.groups)
    }
}

/// The value that the environment block `environ` gives for the variable
/// `var`: that of the first entry for it.
pub open spec fn env_value(environ: Seq<(String, String)>, var: Seq<char>) -> Option<Seq<char>>
    decreases environ.len(),
{
    if environ.len() == 0 {
        None
    } else if environ.first().0@ == var {
        Some(environ.first().1@)
    } else {
        env_value(environ.drop_first(), var)
    }
}

/// The key by environment value: the value of the variable `var` in the
/// environment of the process, or none where the variable is absent.
pub open spec fn env_key(var: Seq<char>) -> spec_fn(Process) -> Option<Seq<char>> {
    |p: Process| env_value(p.environ@, var)
}

/// The key of each process by the variable `var`, process by process.
pub open spec fn env_keys_of(processes: Seq<Process>, var: Seq<char>) -> Seq<Option<Seq<char>>> {
    Seq::new(processes.len(), |i: int| env_key(var)(processes[i]))
}

/// The text that `format!` gives for `{:?}={:?}` with the variable `var` and
/// the value `value`: the two in their debug form with `=` between them.
pub uninterp spec fn env_group_label(var: Seq<char>, value: Option<Seq<char>>) -> Seq<char>;

/// The characters of a value, where there is one.
pub open spec fn value_view(value: Option<String>) -> Option<Seq<char>> {
    match value {
        Some(text) => Some(text@),
        None => None,
    }
}

/// The characters of each value.
pub open spec fn value_views(values: Seq<Option<String>>) -> Seq<Option<Seq<char>>> {
    Seq::new(values.len(), |i: int| value_view(values[i]))
}

/// Whether `keys` and `groups` are the split of `processes` by the value of
/// the variable `var`: one group for each value that occurs, the absent one
/// among them, in the order in which the values occur first, each holding
/// the processes with its value in their order and named after the variable
/// and the value.
pub open spec fn is_split_by_env(
    var: Seq<char>,
    keys: Seq<Option<Seq<char>>>,
    groups: Seq<ProcessGroup>,
    processes: Seq<Process>,
) -> bool {
    &&& keys == first_occurrences(env_keys_of(processes, var))
    &&& groups.len() == keys.len()
    &&& forall|j: int|
        0 <= j < keys.len() ==> (#[trigger] groups[j]).processes@ == processes.filter(
            has_key(env_key(var), keys[j]),
        )
    &&& forall|j: int|
        0 <= j < keys.len() ==> (#[trigger] groups[j]).name@ == env_group_label(var, keys[j])
}

/// The first occurrences of a sequence list each of its elements once.
pub proof fn lemma_first_occurrences<K>(s: Seq<K>)
    ensures
        first_occurrences(s).no_duplicates(),
        forall|k: K| first_occurrences(s).contains(k) <==> s.contains(k),
    decreases s.len(),
{
    if s.len() > 0 {
        let shorter = s.drop_last();
        let before = first_occurrences(shorter);
        let now = first_occurrences(s);
        lemma_first_occurrences(shorter);
        assert forall|k: K| now.contains(k) <==> s.contains(k) by {
            if now.contains(k) {
                let i = choose|i: int| 0 <= i < now.len() && now[i] == k;
                if i < before.len() {
                    assert(before[i] == k);
                    assert(before.contains(k));
                    assert(shorter.contains(k));
                    let m = choose|m: int| 0 <= m < shorter.len() && shorter[m] == k;
                    assert(s[m] == k);
                } else {
                    assert(k == s.last());
                    assert(s[s.len() - 1] == k);
                }
            }
            if s.contains(k) {
                let m = choose|m: int| 0 <= m < s.len() && s[m] == k;
                if m < shorter.len() {
                    assert(shorter[m] == k);
                    assert(shorter.contains(k));
                    assert(before.contains(k));
                    let i = choose|i: int| 0 <= i < before.len() && before[i] == k;
                    assert(now[i] == k);
                } else {
                    if before.contains(k) {
                        let i = choose|i: int| 0 <= i < before.len() && before[i] == k;
                        assert(now[i] == k);
                    } else {
                        assert(now[before.len() as int] == k);
                    }
                }
            }
        }
        if !before.contains(s.last()) {
            assert forall|i: int, j: int| 0 <= i < now.len() && 0 <= j < now.len() && i
                != j implies now[i] != now[j] by {
                if i < before.len() && j < before.len() {
                    assert(before[i] != before[j]);
                } else if i < before.len() {
                    assert(before.contains(before[i]));
                } else {
                    assert(before.contains(before[j]));
                }
            }
        }
    }
}

/// A split by environment value partitions the processes by that key.
pub proof fn lemma_split_by_env_partitions(
    var: Seq<char>,
    keys: Seq<Option<Seq<char>>>,
    groups: Seq<ProcessGroup>,
    processes: Seq<Process>,
)
    requires
        is_split_by_env(var, keys, groups, processes),
    ensures
        is_partition_by(groups, keys, processes, env_key(var)),
        is_rearrangement(groups, processes),
{
    let all = env_keys_of(processes, var);
    lemma_first_occurrences(all);
    assert forall|i: int| 0 <= i < processes.len() implies keys.contains(
        env_key(var)(#[trigger] processes[i]),
    ) by {
        assert(all[i] == env_key(var)(processes[i]));
        assert(all.contains(all[i]));
    }
    lemma_partition_rearranges(groups, keys, processes, env_key(var));
}

/// `format!` with `{:?}={:?}`: the name of the group of the processes whose
/// variable `var` has the value `value`. The text is that of the standard
/// library's debug form of a string and of an optional string.
#[verifier::external_body]
fn env_group_name(var: &String, value: &Option<String>) -> (name: String)
    ensures
        name@ == env_group_label(var@, value_view(*value)),
{
    format!("{:?}={:?}", var, value)
}

/// The value that `environ` gives for the variable `var`.
fn lookup_env(environ: &Vec<(String, String)>, var: &String) -> (value: Option<String>)
    ensures
        value_view(value) == env_value(environ@, var@),
{
    let mut i: usize = 0;
    assert(environ@.skip(0) =~= environ@);
    while i < environ.len()
        invariant
            i <= environ.len(),
            env_value(environ@, var@) == env_value(environ@.skip(i as int), var@),
        decreases environ.len() - i,
    {
        proof {
            assert(environ@.skip(i as int).first() == environ@[i as int]);
            assert(environ@.skip(i as int).drop_first() =~= environ@.skip(i + 1));
        }
        if environ[i].0 == *var {
            return Some(environ[i].1.clone());
        }
        i += 1;
    }
    None
}

/// Whether the two values are the same text, or both absent.
fn same_value(a: &Option<String>, b: &Option<String>) -> (same: bool)
    ensures
        same == (value_view(*a) == value_view(*b)),
{
    match a {
        Some(x) => match b {
            Some(y) => *x == *y,
            None => false,
        },
        None => match b {
            Some(_) => false,
            None => true,
        },
    }
}

/// The index of `value` in `keys`, where it is listed.
fn find_value(keys: &Vec<Option<String>>, value: &Option<String>) -> (found: Option<usize>)
    ensures
        found matches Some(index) ==> index < keys.len() && value_view(keys[index as int])
            == value_view(*value),
        found is None ==> !value_views(keys@).contains(value_view(*value)),
{
    let mut i: usize = 0;
    while i < keys.len()
        invariant
            i <= keys.len(),
            forall|k: int| 0 <= k < i ==> value_view(#[trigger] keys[k]) != value_view(*value),
        decreases keys.len() - i,
    {
        if same_value(&keys[i], value) {
            return Some(i);
        }
        i += 1;
    }
    proof {
        let views = value_views(keys@);
        if views.contains(value_view(*value)) {
            let k = choose|k: int| 0 <= k < views.len() && views[k] == value_view(*value);
            assert(value_view(keys[k]) != value_view(*value));
        }
    }
    None
}

/// Groups of processes by the value of one environment variable, in the
/// order in which the values occur first.
pub struct ProcessSplitterByEnvVariable {
    var: String,
    keys: Vec<Option<String>>,
    groups: Vec<ProcessGroup>,
}

impl ProcessSplitterByEnvVariable {
    /// The name of the variable.
    pub closed spec fn var_view(&self) -> Seq<char> {
        self.var@
    }

    /// The values of the groups, group by group.
    pub closed spec fn keys_view(&self) -> Seq<Option<Seq<char>>> {
        value_views(self.keys@)
    }

    /// A splitter by the variable `var` that holds no group.
    pub fn new(var: &str) -> (splitter: Self)
        ensures
            splitter.var_view() == var@,
            splitter.groups_view() == Seq::<ProcessGroup>::empty(),
            splitter.keys_view() == Seq::<Option<Seq<char>>>::empty(),
    {
        let splitter = ProcessSplitterByEnvVariable {
            var: String::from_str(var),
            keys: Vec::new(),
            groups: Vec::new(),
        };
        assert(value_views(splitter.keys@) =~= Seq::<Option<Seq<char>>>::empty());
        splitter
    }

    /// The values of the groups, group by group.
    pub fn values(&self) -> (keys: &Vec<Option<String>>)
        ensures
            value_views(keys@) == self.keys_view(),
    {
        &self.keys
    }
}

/// The values of the variable `var` that occur in `processes`, in the order
/// in which each occurs first, and for each process the index of its value.
fn env_slots(processes: &Vec<Process>, var: &String) -> (r: (Vec<Option<String>>, Vec<usize>))
    ensures
        value_views(r.0@) == first_occurrences(env_keys_of(processes@, var@)),
        r.1.len() == processes.len(),
        forall|i: int|
            0 <= i < processes.len() ==> (#[trigger] r.1[i]) < r.0.len() && value_views(
                r.0@,
            )[r.1[i] as int] == env_key(var@)(processes[i]),
{
    let mut keys: Vec<Option<String>> = Vec::new();
    let mut slots: Vec<usize> = Vec::new();
    let mut i: usize = 0;
    proof {
        assert(env_keys_of(processes@.take(0), var@) =~= Seq::<Option<Seq<char>>>::empty());
        assert(value_views(keys@) =~= first_occurrences(env_keys_of(processes@.take(0), var@)));
    }
    while i < processes.len()
        invariant
            i <= processes.len(),
            slots.len() == i,
            value_views(keys@) == first_occurrences(env_keys_of(processes@.take(i as int), var@)),
            forall|k: int|
                0 <= k < i ==> (#[trigger] slots[k]) < keys.len() && value_views(
                    keys@,
                )[slots[k] as int] == env_key(var@)(processes[k]),
        decreases processes.len() - i,
    {
        let ghost keys_before = keys@;
        let value = lookup_env(&processes[i].environ, var);
        proof {
            let shorter = env_keys_of(processes@.take(i as int), var@);
            let longer = env_keys_of(processes@.take(i + 1), var@);
            assert(longer =~= shorter.push(value_view(value)));
            assert(longer.drop_last() =~= shorter);
        }
        match find_value(&keys, &value) {
            Some(index) => {
                proof {
                    let views = value_views(keys@);
                    assert(views[index as int] == value_view(value));
                    assert(views.contains(value_view(value)));
                }
                slots.push(index);
            },
            None => {
                slots.push(keys.len());
                keys.push(value);
                proof {
                    assert(value_views(keys@) =~= value_views(keys_before).push(
                        value_view(value),
                    ));
                    assert forall|k: int| 0 <= k < i + 1 implies (#[trigger] slots[k]) < keys.len()
                        && value_views(keys@)[slots[k] as int] == env_key(var@)(processes[k]) by {
                        if k < i {
                            assert(value_views(keys_before)[slots[k] as int] == env_key(var@)(
                                processes[k],
                            ));
                        }
                    }
                }
            },
        }
        i += 1;
    }
    assert(processes@.take(processes.len() as int) =~= processes@);
    (keys, slots)
}

impl ProcessSplitter for ProcessSplitterByEnvVariable {
    closed spec fn groups_view(&self) -> Seq<ProcessGroup> {
        self.groups@
    }

    /// Partitions `processes` by the value of the variable. It does not fail.
    fn split(&mut self, processes: Vec<Process>) -> (r: Result<(), SplitError>)
        ensures
            r is Ok,
            final(self).var_view() == old(self).var_view(),
            is_split_by_env(
                final(self).var_view(),
                final(self).keys_view(),
                final(self).groups_view(),
                processes@,
            ),
    {
        let (keys, slots) = env_slots(&processes, &self.var);
        let mut labels: Vec<String> = Vec::new();
        let mut j: usize = 0;
        while j < keys.len()
            invariant
                j <= keys.len(),
                labels.len() == j,
                *self == *old(self),
                forall|k: int|
                    0 <= k < j ==> (#[trigger] labels[k])@ == env_group_label(
                        self.var@,
                        value_views(keys@)[k],
                    ),
            decreases keys.len() - j,
        {
            let label = env_group_name(&self.var, &keys[j]);
            labels.push(label);
            j += 1;
        }
        let ghost all = processes@;
        let groups = fill(&labels, processes, &slots);
        proof {
            let views = value_views(keys@);
            lemma_first_occurrences(env_keys_of(all, self.var@));
            assert forall|j: int| 0 <= j < views.len() implies (#[trigger] groups@[j]).processes@
                == all.filter(has_key(env_key(self.var@), views[j])) by {
                lemma_members_at(all, slots@, views, env_key(self.var@), j, all.len() as int);
                assert(all.take(all.len() as int) =~= all);
            }
        }
        self.keys = keys;
        self.groups = groups;
        proof {
            lemma_split_by_env_partitions(self.var@, value_views(self.keys@), self.groups@, all);
        }
        Ok(())
    }

    fn iter_groups(&self) -> (groups: &Vec<ProcessGroup>) {
        &self.groups
    }

    fn collect_processes(self) -> (processes: Vec<Process>) {
        flatten(self.groups)
    }
}

} // verus!
