use procstats::group::aggregate;
use procstats::group::processes_group_info;
use procstats::group::AggregateError;
use procstats::group::ProcessGroup;
use procstats::pagemap::MemoryMap;
use procstats::pagemap::PageInfo;
use procstats::pagemap::SwapSlot;
use procstats::process::Process;
use procstats::usage::resident_size;
use procstats::usage::usage_report;

fn member(pid: i32, uid: u32, frames: &[u64]) -> Process {
    let mut pages = Vec::new();
    for frame in frames {
        pages.push(PageInfo::MemoryPage { pfn: *frame });
    }
    let end = 4096 * frames.len() as u64;
    Process {
        pid,
        uid,
        cmdline: vec![format!("worker-{}", pid)],
        vmpte: Some(10),
        fd_count: Some(3),
        environ: Vec::new(),
        memory_maps: Some(vec![(MemoryMap { address: (0, end) }, pages)]),
    }
}

fn group_of(name: &str, processes: Vec<Process>) -> ProcessGroup {
    ProcessGroup { name: String::from(name), processes }
}

#[test]
fn aggregate_unites_frames_and_sums_counters() {
    let mut swapping = member(3, 100, &[]);
    swapping.memory_maps = Some(vec![(
        MemoryMap { address: (0, 4096) },
        vec![PageInfo::SwapPage { swap_type: 0, offset: 4 }],
    )]);
    let group = group_of("g", vec![member(1, 100, &[1, 2]), member(2, 100, &[1, 3]), swapping]);
    let info = aggregate(&group, 4096).unwrap();
    assert_eq!(info.pids, vec![1, 2, 3]);
    assert_eq!(info.pfns.to_vec(), vec![1, 2, 3]);
    assert_eq!(info.swap_pages.to_vec(), vec![SwapSlot { swap_type: 0, offset: 4 }]);
    assert_eq!(info.pte, 30);
    assert_eq!(info.fds, 9);
}

#[test]
fn aggregate_of_no_member_is_empty() {
    let info = aggregate(&group_of("none", Vec::new()), 4096).unwrap();
    assert!(info.pids.is_empty());
    assert!(info.pfns.is_empty());
    assert!(info.swap_pages.is_empty());
    assert_eq!(info.pte, 0);
    assert_eq!(info.fds, 0);
}

#[test]
fn aggregate_leaves_out_members_without_footprint() {
    let mut exited = member(2, 100, &[7]);
    exited.memory_maps = None;
    let mut kernel = member(3, 100, &[8]);
    kernel.cmdline = Vec::new();
    let mut unreadable = member(4, 100, &[9]);
    unreadable.fd_count = None;
    let mut malformed = member(5, 100, &[10]);
    malformed.memory_maps = Some(vec![(MemoryMap { address: (2, 1) }, Vec::new())]);
    let group = group_of(
        "g",
        vec![member(1, 100, &[1]), exited, kernel, unreadable, malformed, member(6, 100, &[2])],
    );
    let info = aggregate(&group, 4096).unwrap();
    assert_eq!(info.pids, vec![1, 6]);
    assert_eq!(info.pfns.to_vec(), vec![1, 2]);
    assert_eq!(info.pte, 20);
    assert_eq!(info.fds, 6);
}

#[test]
fn aggregate_fails_where_a_total_does_not_fit() {
    let mut big = member(1, 100, &[1]);
    big.vmpte = Some(u64::MAX);
    let group = group_of("g", vec![big, member(2, 100, &[2])]);
    assert!(matches!(aggregate(&group, 4096), Err(AggregateError::Overflow)));
    let mut many = member(1, 100, &[1]);
    many.fd_count = Some(usize::MAX);
    let group = group_of("g", vec![member(2, 100, &[2]), many]);
    assert!(matches!(aggregate(&group, 4096), Err(AggregateError::Overflow)));
    let mut alone = member(1, 100, &[1]);
    alone.vmpte = Some(u64::MAX);
    let info = aggregate(&group_of("g", vec![alone]), 4096).unwrap();
    assert_eq!(info.pte, u64::MAX);
}

#[test]
fn group_has_no_more_frames_than_its_members_between_them() {
    let shared = group_of("g", vec![member(1, 1, &[1, 2, 3]), member(2, 1, &[3, 4])]);
    assert_eq!(aggregate(&shared, 4096).unwrap().pfns.len(), 4);
    let disjoint = group_of("g", vec![member(1, 1, &[1, 2, 3]), member(2, 1, &[4, 5])]);
    assert_eq!(aggregate(&disjoint, 4096).unwrap().pfns.len(), 5);
}

#[test]
fn aggregating_twice_gives_the_same_footprint() {
    let group = group_of("g", vec![member(1, 1, &[5, 1]), member(2, 1, &[3, 5, 0])]);
    let first = aggregate(&group, 4096).unwrap();
    let second = aggregate(&group, 4096).unwrap();
    assert_eq!(first.pids, second.pids);
    assert_eq!(first.pfns.to_vec(), second.pfns.to_vec());
    assert_eq!(first.swap_pages.to_vec(), second.swap_pages.to_vec());
    assert_eq!(first.pte, second.pte);
    assert_eq!(first.fds, second.fds);
}

#[test]
fn processes_group_info_aggregates_the_members() {
    let group = group_of("g", vec![member(1, 1, &[1, 2]), member(2, 1, &[2, 3])]);
    let info = processes_group_info(&group).unwrap();
    assert_eq!(info.pids, vec![1, 2]);
    assert_eq!(info.pfns.to_vec(), vec![1, 2, 3]);
    assert_eq!(info.pte, 20);
    assert_eq!(info.fds, 6);
}

#[test]
fn groups_are_equal_where_their_names_are() {
    let a = group_of("user a", vec![member(1, 1, &[1])]);
    let b = group_of("user a", Vec::new());
    let c = group_of("user c", vec![member(1, 1, &[1])]);
    assert!(a == b);
    assert!(a != c);
}

#[test]
fn resident_size_is_frames_times_page_size() {
    let info = aggregate(&group_of("g", vec![member(1, 1, &[1, 2, 3])]), 4096).unwrap();
    assert_eq!(resident_size(&info, 4096), Some(12288));
    assert_eq!(resident_size(&info, 0), Some(0));
    assert_eq!(resident_size(&info, u64::MAX / 3), Some(u64::MAX));
    assert_eq!(resident_size(&info, u64::MAX / 3 + 1), None);
}

#[test]
fn two_accounts_sharing_one_frame() {
    let f1 = 101;
    let f2 = 102;
    let f3 = 103;
    let groups = vec![
        group_of("user 100", vec![member(1, 100, &[f1, f2]), member(2, 100, &[f1, f3])]),
        group_of("user 200", vec![member(3, 200, &[f1])]),
    ];
    assert_eq!(aggregate(&groups[0], 4096).unwrap().pfns.to_vec(), vec![f1, f2, f3]);
    assert_eq!(aggregate(&groups[1], 4096).unwrap().pfns.to_vec(), vec![f1]);
    let report = usage_report(&groups, 4096).unwrap();
    assert_eq!(report.len(), 2);
    assert_eq!(report[0].name, "user 100");
    assert_eq!(report[0].pfns, 3);
    assert_eq!(report[0].unique_pfns, 2);
    assert_eq!(report[0].rss, 3 * 4096);
    assert_eq!(report[0].uss, 2 * 4096);
    assert_eq!(report[1].name, "user 200");
    assert_eq!(report[1].pfns, 1);
    assert_eq!(report[1].unique_pfns, 0);
    assert_eq!(report[1].rss, 4096);
    assert_eq!(report[1].uss, 0);
}

#[test]
fn unique_frames_leave_out_what_another_group_shares() {
    let groups = vec![
        group_of("a", vec![member(1, 1, &[1, 2, 3, 4])]),
        group_of("b", vec![member(2, 2, &[3, 4, 5])]),
    ];
    let report = usage_report(&groups, 1).unwrap();
    assert_eq!(report[0].unique_pfns, 2);
    assert_eq!(report[1].unique_pfns, 1);
    assert_eq!(report[0].uss, 2);
    assert_eq!(report[1].uss, 1);
}

#[test]
fn groups_of_one_name_do_not_count_against_each_other() {
    let groups = vec![
        group_of("a", vec![member(1, 1, &[1, 2])]),
        group_of("a", vec![member(2, 2, &[2, 3])]),
        group_of("b", vec![member(3, 3, &[3])]),
    ];
    let report = usage_report(&groups, 10).unwrap();
    assert_eq!(report[0].unique_pfns, 2);
    assert_eq!(report[1].unique_pfns, 1);
    assert_eq!(report[2].unique_pfns, 0);
}

#[test]
fn usage_of_no_group_is_empty() {
    assert!(usage_report(&Vec::new(), 4096).unwrap().is_empty());
}

#[test]
fn usage_fails_where_a_size_does_not_fit() {
    let groups = vec![group_of("a", vec![member(1, 1, &[1]), member(2, 1, &[2])])];
    assert!(matches!(usage_report(&groups, u64::MAX), Err(AggregateError::Overflow)));
    let one = vec![group_of("a", vec![member(1, 1, &[1]), member(2, 1, &[1])])];
    assert_eq!(usage_report(&one, u64::MAX).unwrap()[0].rss, u64::MAX);
    let mut big = member(1, 1, &[1]);
    big.vmpte = Some(u64::MAX);
    let groups = vec![
        group_of("a", vec![member(2, 1, &[1])]),
        group_of("b", vec![big, member(3, 1, &[2])]),
    ];
    assert!(matches!(usage_report(&groups, 4096), Err(AggregateError::Overflow)));
}
