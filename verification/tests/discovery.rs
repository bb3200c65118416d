use procstats::discovery::check_privilege;
use procstats::discovery::check_privilege_of;
use procstats::discovery::find_sga_segment;
use procstats::discovery::format_sga_size;
use procstats::discovery::get_smon_info;
use procstats::discovery::parse_trimmed;
use procstats::discovery::probe_command;
use procstats::discovery::read_sga_size;
use procstats::discovery::select_mode;
use procstats::discovery::DiscoveryError;
use procstats::discovery::Mode;
use procstats::discovery::PrivilegeError;
use procstats::discovery::SharedSegment;
use procstats::discovery::Shm;

fn args(list: &[&str]) -> Vec<String> {
    let mut v = Vec::new();
    for a in list {
        v.push(String::from(*a));
    }
    v
}

fn segment(key: i32, shmid: u64, size: u64, pfns: Option<Vec<u64>>) -> SharedSegment {
    SharedSegment { shm: Shm { key, shmid, size }, pfns }
}

#[test]
fn probe_argument_selects_probe_mode() {
    assert_eq!(select_mode(&args(&["prog", "get_sga"])), Mode::Probe);
    assert_eq!(select_mode(&args(&["prog", "get_sga", "more"])), Mode::Probe);
    assert_eq!(select_mode(&args(&["prog"])), Mode::Report);
    assert_eq!(select_mode(&args(&[])), Mode::Report);
    assert_eq!(select_mode(&args(&["get_sga"])), Mode::Report);
    assert_eq!(select_mode(&args(&["prog", "get_sga "])), Mode::Report);
    assert_eq!(select_mode(&args(&["prog", "other", "get_sga"])), Mode::Report);
}

#[test]
fn probe_must_not_run_as_superuser() {
    assert_eq!(check_privilege_of(Mode::Probe, 0), Err(PrivilegeError::SuperuserForbidden));
    assert_eq!(check_privilege_of(Mode::Probe, 1000), Ok(()));
    assert_eq!(check_privilege_of(Mode::Probe, u32::MAX), Ok(()));
}

#[test]
fn report_needs_the_superuser() {
    assert_eq!(check_privilege_of(Mode::Report, 0), Ok(()));
    assert_eq!(check_privilege_of(Mode::Report, 1), Err(PrivilegeError::SuperuserRequired));
}

#[test]
fn privilege_of_this_process_is_that_of_its_account() {
    let uid = users::get_current_uid();
    assert_eq!(check_privilege(Mode::Probe), check_privilege_of(Mode::Probe, uid));
    assert_eq!(check_privilege(Mode::Report), check_privilege_of(Mode::Report, uid));
    assert_ne!(check_privilege(Mode::Probe).is_ok(), check_privilege(Mode::Report).is_ok());
}

#[test]
fn probe_command_sets_account_argument_and_environment() {
    let command = probe_command(54321, &String::from("ORCL"), &String::from("/u01/app/db"));
    assert_eq!(command.uid, 54321);
    assert_eq!(command.argument, "get_sga");
    assert_eq!(
        command.environment,
        vec![
            (String::from("LD_LIBRARY_PATH"), String::from("/u01/app/db/lib")),
            (String::from("ORACLE_SID"), String::from("ORCL")),
            (String::from("ORACLE_HOME"), String::from("/u01/app/db")),
        ]
    );
}

#[test]
fn size_is_read_from_a_line_with_one_number() {
    assert_eq!(read_sga_size(true, b"1073741824\n".to_vec()), Ok(1073741824));
    assert_eq!(read_sga_size(true, b"0".to_vec()), Ok(0));
    assert_eq!(read_sga_size(true, b"  \t42 \r\n\n".to_vec()), Ok(42));
    assert_eq!(read_sga_size(true, b"+7\n".to_vec()), Ok(7));
    assert_eq!(read_sga_size(true, b"007\n".to_vec()), Ok(7));
    assert_eq!(read_sga_size(true, b"18446744073709551615\n".to_vec()), Ok(u64::MAX));
    assert_eq!(read_sga_size(true, "\u{a0}\u{3000}12\u{2003}\u{85}".as_bytes().to_vec()), Ok(12));
}

#[test]
fn failed_probe_gives_no_size() {
    assert_eq!(read_sga_size(false, b"1024\n".to_vec()), Err(DiscoveryError::ProbeFailed));
    assert_eq!(read_sga_size(false, vec![0xff]), Err(DiscoveryError::ProbeFailed));
    assert_eq!(read_sga_size(false, Vec::new()), Err(DiscoveryError::ProbeFailed));
}

#[test]
fn output_that_is_not_text_gives_no_size() {
    assert_eq!(read_sga_size(true, vec![0x31, 0xff, 0x0a]), Err(DiscoveryError::OutputNotText));
    assert_eq!(read_sga_size(true, vec![0xc3]), Err(DiscoveryError::OutputNotText));
    assert_eq!(read_sga_size(true, vec![0xed, 0xa0, 0x80]), Err(DiscoveryError::OutputNotText));
}

#[test]
fn text_that_is_no_number_is_malformed() {
    let malformed: Vec<&[u8]> = vec![
        b"",
        b"\n",
        b"+",
        b"-1",
        b"12 34",
        b"1_000",
        b"0x10",
        b"12a",
        b"a12",
        b"++1",
        b"1+",
        b"18446744073709551616",
        b"99999999999999999999999",
        b"1.5",
    ];
    for text in malformed {
        assert_eq!(read_sga_size(true, text.to_vec()), Err(DiscoveryError::MalformedSize));
    }
    let fullwidth_digit = "\u{ff11}";
    assert_eq!(
        read_sga_size(true, fullwidth_digit.as_bytes().to_vec()),
        Err(DiscoveryError::MalformedSize)
    );
}

#[test]
fn parse_trimmed_agrees_with_the_standard_parser() {
    let texts = vec![
        "", " ", "0", "  10  ", "+5", "-5", "+", " + 5", "1 2", "\u{2028}8\u{2029}", "\u{200b}8",
        "18446744073709551615", "18446744073709551616", "000000000000000000000000001", "12\0",
    ];
    for text in texts {
        assert_eq!(parse_trimmed(text), text.trim().parse::<u64>().ok());
    }
}

#[test]
fn first_segment_of_the_size_is_found() {
    let segments = vec![
        segment(1, 10, 4096, None),
        segment(2, 11, 8192, None),
        segment(3, 12, 8192, None),
        segment(4, 13, 0, None),
    ];
    assert_eq!(find_sga_segment(&segments, 4096), Some(0));
    assert_eq!(find_sga_segment(&segments, 8192), Some(1));
    assert_eq!(find_sga_segment(&segments, 0), Some(3));
    assert_eq!(find_sga_segment(&segments, 1), None);
    assert_eq!(find_sga_segment(&Vec::new(), 4096), None);
}

#[test]
fn instance_binds_to_the_first_of_two_segments_of_one_size() {
    let segments = vec![
        segment(7, 70, 1000, Some(vec![1])),
        segment(8, 80, 2048, Some(vec![9, 3, 9])),
        segment(9, 90, 2048, Some(vec![4])),
    ];
    for _ in 0..3 {
        let info =
            get_smon_info(321, &String::from("ORCL"), true, b"2048\n".to_vec(), &segments).unwrap();
        assert_eq!(info.pid, 321);
        assert_eq!(info.sid, "ORCL");
        assert_eq!(info.sga_size, 2048);
        assert_eq!(info.sga_shm, Shm { key: 8, shmid: 80, size: 2048 });
        assert_eq!(info.sga_pfns.to_vec(), vec![3, 9]);
    }
}

#[test]
fn instance_without_matching_segment_is_not_recorded() {
    let segments = vec![segment(7, 70, 1000, Some(vec![1]))];
    let sid = String::from("ORCL");
    assert!(matches!(
        get_smon_info(1, &sid, true, b"2048\n".to_vec(), &segments),
        Err(DiscoveryError::SegmentNotFound)
    ));
    assert!(matches!(
        get_smon_info(1, &sid, true, b"1000\n".to_vec(), &Vec::new()),
        Err(DiscoveryError::SegmentNotFound)
    ));
}

#[test]
fn instance_with_failed_probe_is_not_recorded() {
    let segments = vec![segment(7, 70, 1000, Some(vec![1]))];
    let sid = String::from("ORCL");
    assert!(matches!(
        get_smon_info(1, &sid, false, b"1000\n".to_vec(), &segments),
        Err(DiscoveryError::ProbeFailed)
    ));
    assert!(matches!(
        get_smon_info(1, &sid, true, vec![0x80], &segments),
        Err(DiscoveryError::OutputNotText)
    ));
    assert!(matches!(
        get_smon_info(1, &sid, true, b"size=1000".to_vec(), &segments),
        Err(DiscoveryError::MalformedSize)
    ));
}

#[test]
fn instance_whose_frames_were_not_resolved_is_not_recorded() {
    let segments = vec![segment(7, 70, 1000, None), segment(8, 80, 1000, Some(vec![1]))];
    assert!(matches!(
        get_smon_info(1, &String::from("ORCL"), true, b"1000".to_vec(), &segments),
        Err(DiscoveryError::FramesUnresolved)
    ));
}

#[test]
fn only_a_malformed_size_is_fatal() {
    assert!(DiscoveryError::MalformedSize.is_fatal());
    assert!(!DiscoveryError::ProbeFailed.is_fatal());
    assert!(!DiscoveryError::OutputNotText.is_fatal());
    assert!(!DiscoveryError::SegmentNotFound.is_fatal());
    assert!(!DiscoveryError::FramesUnresolved.is_fatal());
}

#[test]
fn probe_prints_one_line_with_the_size() {
    assert_eq!(format_sga_size(0), "0\n");
    assert_eq!(format_sga_size(7), "7\n");
    assert_eq!(format_sga_size(10), "10\n");
    assert_eq!(format_sga_size(1073741824), "1073741824\n");
    assert_eq!(format_sga_size(u64::MAX), "18446744073709551615\n");
}

#[test]
fn what_the_probe_prints_is_read_back() {
    for size in [0u64, 1, 9, 10, 99, 100, 4096, 1 << 40, u64::MAX - 1, u64::MAX] {
        assert_eq!(read_sga_size(true, format_sga_size(size).into_bytes()), Ok(size));
    }
}
