use procstats::process::Process;
use procstats::splitter::ProcessSplitter;
use procstats::splitter::ProcessSplitterByEnvVariable;
use procstats::splitter::ProcessSplitterByUid;
use procstats::splitter::SplitError;

fn owned(pid: i32, uid: u32) -> Process {
    Process {
        pid,
        uid,
        cmdline: vec![String::from("daemon")],
        vmpte: Some(1),
        fd_count: Some(1),
        environ: Vec::new(),
        memory_maps: None,
    }
}

fn with_env(pid: i32, environ: &[(&str, &str)]) -> Process {
    let mut process = owned(pid, 0);
    for (name, value) in environ {
        process.environ.push((String::from(*name), String::from(*value)));
    }
    process
}

fn names() -> Vec<(u32, String)> {
    vec![
        (200, String::from("db")),
        (100, String::from("www")),
        (0, String::from("root")),
        (100, String::from("shadowed")),
    ]
}

fn pids_of(processes: &Vec<Process>) -> Vec<i32> {
    let mut pids = Vec::new();
    for process in processes {
        pids.push(process.pid);
    }
    pids
}

#[test]
fn new_splitters_hold_no_group() {
    assert!(ProcessSplitterByUid::new().iter_groups().is_empty());
    assert!(ProcessSplitterByUid::new().account_ids().is_empty());
    assert!(ProcessSplitterByUid::new().collect_processes().is_empty());
    assert!(ProcessSplitterByEnvVariable::new("X").iter_groups().is_empty());
    assert!(ProcessSplitterByEnvVariable::new("X").values().is_empty());
    assert!(ProcessSplitterByEnvVariable::new("X").collect_processes().is_empty());
}

#[test]
fn split_by_account_orders_groups_by_identifier() {
    let mut splitter = ProcessSplitterByUid::new();
    let processes =
        vec![owned(1, 200), owned(2, 0), owned(3, 100), owned(4, 200), owned(5, 100)];
    assert_eq!(splitter.split_with_names(processes, &names()), Ok(()));
    assert_eq!(splitter.account_ids(), &vec![0, 100, 200]);
    let groups = splitter.iter_groups();
    assert_eq!(groups.len(), 3);
    assert_eq!(groups[0].name, "user root");
    assert_eq!(groups[1].name, "user www");
    assert_eq!(groups[2].name, "user db");
    assert_eq!(pids_of(&groups[0].processes), vec![2]);
    assert_eq!(pids_of(&groups[1].processes), vec![3, 5]);
    assert_eq!(pids_of(&groups[2].processes), vec![1, 4]);
}

#[test]
fn reclaiming_after_a_split_by_account_gives_every_process_once() {
    let mut splitter = ProcessSplitterByUid::new();
    let processes =
        vec![owned(1, 200), owned(2, 0), owned(3, 100), owned(4, 200), owned(5, 100)];
    splitter.split_with_names(processes, &names()).unwrap();
    let reclaimed = splitter.collect_processes();
    assert_eq!(pids_of(&reclaimed), vec![2, 3, 5, 1, 4]);
    let mut sorted = pids_of(&reclaimed);
    sorted.sort();
    assert_eq!(sorted, vec![1, 2, 3, 4, 5]);
}

#[test]
fn split_replaces_the_groups_held_before() {
    let mut splitter = ProcessSplitterByUid::new();
    splitter.split_with_names(vec![owned(1, 200), owned(2, 0)], &names()).unwrap();
    splitter.split_with_names(vec![owned(7, 100)], &names()).unwrap();
    assert_eq!(splitter.account_ids(), &vec![100]);
    assert_eq!(splitter.iter_groups().len(), 1);
    assert_eq!(pids_of(&splitter.iter_groups()[0].processes), vec![7]);
    splitter.split_with_names(Vec::new(), &names()).unwrap();
    assert!(splitter.iter_groups().is_empty());
}

#[test]
fn split_by_account_fails_on_the_least_account_without_name() {
    let mut splitter = ProcessSplitterByUid::new();
    splitter.split_with_names(vec![owned(1, 200)], &names()).unwrap();
    let processes = vec![owned(2, 700), owned(3, 100), owned(4, 300), owned(5, 0)];
    assert_eq!(
        splitter.split_with_names(processes, &names()),
        Err(SplitError::UnknownAccount(300))
    );
    assert_eq!(splitter.account_ids(), &vec![200]);
    assert_eq!(splitter.iter_groups().len(), 1);
    assert_eq!(splitter.iter_groups()[0].name, "user db");
    assert_eq!(pids_of(&splitter.iter_groups()[0].processes), vec![1]);
}

#[test]
fn split_by_account_asks_the_user_database() {
    let mut splitter = ProcessSplitterByUid::new();
    let result = splitter.split(vec![owned(1, 0), owned(2, 0)]);
    match users::get_user_by_uid(0) {
        Some(user) => {
            assert_eq!(result, Ok(()));
            let expected = format!("user {}", user.name().to_string_lossy());
            assert_eq!(splitter.iter_groups().len(), 1);
            assert_eq!(splitter.iter_groups()[0].name, expected);
            assert_eq!(pids_of(&splitter.iter_groups()[0].processes), vec![1, 2]);
            assert_eq!(pids_of(&splitter.collect_processes()), vec![1, 2]);
        }
        None => {
            assert_eq!(result, Err(SplitError::UnknownAccount(0)));
            assert!(splitter.iter_groups().is_empty());
        }
    }
}

#[test]
fn split_by_variable_orders_groups_by_first_occurrence() {
    let mut splitter = ProcessSplitterByEnvVariable::new("ORACLE_SID");
    let processes = vec![
        with_env(1, &[("PATH", "/bin"), ("ORACLE_SID", "B")]),
        with_env(2, &[]),
        with_env(3, &[("ORACLE_SID", "A")]),
        with_env(4, &[("ORACLE_SID", "B"), ("ORACLE_SID", "A")]),
        with_env(5, &[("ORACLE_SIDE", "A")]),
        with_env(6, &[("ORACLE_SID", "")]),
    ];
    assert_eq!(splitter.split(processes), Ok(()));
    assert_eq!(
        splitter.values(),
        &vec![Some(String::from("B")), None, Some(String::from("A")), Some(String::new())]
    );
    let groups = splitter.iter_groups();
    assert_eq!(groups.len(), 4);
    assert_eq!(groups[0].name, "\"ORACLE_SID\"=Some(\"B\")");
    assert_eq!(groups[1].name, "\"ORACLE_SID\"=None");
    assert_eq!(groups[2].name, "\"ORACLE_SID\"=Some(\"A\")");
    assert_eq!(groups[3].name, "\"ORACLE_SID\"=Some(\"\")");
    assert_eq!(pids_of(&groups[0].processes), vec![1, 4]);
    assert_eq!(pids_of(&groups[1].processes), vec![2, 5]);
    assert_eq!(pids_of(&groups[2].processes), vec![3]);
    assert_eq!(pids_of(&groups[3].processes), vec![6]);
}

#[test]
fn reclaiming_after_a_split_by_variable_gives_every_process_once() {
    let mut splitter = ProcessSplitterByEnvVariable::new("SID");
    let processes = vec![
        with_env(1, &[("SID", "x")]),
        with_env(2, &[]),
        with_env(3, &[("SID", "y")]),
        with_env(4, &[("SID", "x")]),
        with_env(5, &[]),
    ];
    splitter.split(processes).unwrap();
    let reclaimed = splitter.collect_processes();
    assert_eq!(pids_of(&reclaimed), vec![1, 4, 2, 5, 3]);
}

#[test]
fn processes_without_the_variable_form_one_group() {
    let mut splitter = ProcessSplitterByEnvVariable::new("SID");
    splitter.split(vec![with_env(1, &[]), with_env(2, &[("OTHER", "1")])]).unwrap();
    assert_eq!(splitter.values(), &vec![None]);
    assert_eq!(splitter.iter_groups().len(), 1);
    assert_eq!(splitter.iter_groups()[0].name, "\"SID\"=None");
    assert_eq!(pids_of(&splitter.iter_groups()[0].processes), vec![1, 2]);
}

#[test]
fn processes_can_be_split_again_by_another_key() {
    let mut by_account = ProcessSplitterByUid::new();
    let mut first = with_env(1, &[("SID", "x")]);
    first.uid = 200;
    let mut second = with_env(2, &[]);
    second.uid = 100;
    let mut third = with_env(3, &[("SID", "x")]);
    third.uid = 100;
    by_account.split_with_names(vec![first, second, third], &names()).unwrap();
    let mut by_variable = ProcessSplitterByEnvVariable::new("SID");
    by_variable.split(by_account.collect_processes()).unwrap();
    let groups = by_variable.iter_groups();
    assert_eq!(groups.len(), 2);
    assert_eq!(pids_of(&groups[0].processes), vec![2]);
    assert_eq!(pids_of(&groups[1].processes), vec![3, 1]);
}
