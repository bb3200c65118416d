use procstats::pagemap::MemoryMap;
use procstats::pagemap::PageInfo;
use procstats::pagemap::SwapSlot;
use procstats::process::extract;
use procstats::process::get_info;
use procstats::process::ExtractError;
use procstats::process::Process;

fn shell(pid: i32) -> Process {
    Process {
        pid,
        uid: 1000,
        cmdline: vec![String::from("/bin/sh")],
        vmpte: Some(48),
        fd_count: Some(5),
        environ: Vec::new(),
        memory_maps: None,
    }
}

fn two_mappings() -> Vec<(MemoryMap, Vec<PageInfo>)> {
    vec![
        (
            MemoryMap { address: (0x1000, 0x4000) },
            vec![
                PageInfo::MemoryPage { pfn: 10 },
                PageInfo::MemoryPage { pfn: 0 },
                PageInfo::SwapPage { swap_type: 1, offset: 77 },
            ],
        ),
        (
            MemoryMap { address: (0x8000, 0xa000) },
            vec![PageInfo::MemoryPage { pfn: 11 }, PageInfo::MemoryPage { pfn: 10 }],
        ),
    ]
}

#[test]
fn process_without_command_line_has_no_footprint() {
    let mut kernel = shell(2);
    kernel.cmdline = Vec::new();
    assert!(matches!(extract(&kernel, &two_mappings(), 4096), Ok(None)));
    kernel.vmpte = None;
    kernel.fd_count = None;
    assert!(matches!(extract(&kernel, &two_mappings(), 4096), Ok(None)));
    assert!(matches!(get_info(&kernel, &two_mappings()), Ok(None)));
}

#[test]
fn process_with_command_line_has_a_footprint() {
    let info = extract(&shell(41), &two_mappings(), 4096).unwrap().unwrap();
    assert_eq!(info.pid, 41);
    assert_eq!(info.pfns.to_vec(), vec![0, 10, 11]);
    assert_eq!(info.swap_pages.to_vec(), vec![SwapSlot { swap_type: 1, offset: 77 }]);
    assert_eq!(info.rss, 3 * 4096);
    assert_eq!(info.vsz, 0x3000 + 0x2000);
    assert_eq!(info.pte, 48);
    assert_eq!(info.fds, 5);
}

#[test]
fn zero_frame_is_listed_but_not_counted() {
    let maps = vec![(
        MemoryMap { address: (0, 8192) },
        vec![PageInfo::MemoryPage { pfn: 0 }, PageInfo::MemoryPage { pfn: 0 }],
    )];
    let info = extract(&shell(1), &maps, 4096).unwrap().unwrap();
    assert_eq!(info.pfns.to_vec(), vec![0]);
    assert_eq!(info.rss, 0);
    assert_eq!(info.vsz, 8192);
}

#[test]
fn process_without_mappings_has_an_empty_footprint() {
    let info = extract(&shell(9), &Vec::new(), 4096).unwrap().unwrap();
    assert_eq!(info.pid, 9);
    assert!(info.pfns.is_empty());
    assert!(info.swap_pages.is_empty());
    assert_eq!(info.rss, 0);
    assert_eq!(info.vsz, 0);
    assert_eq!(info.pte, 48);
    assert_eq!(info.fds, 5);
}

#[test]
fn missing_page_table_size_is_an_error() {
    let mut process = shell(1);
    process.vmpte = None;
    assert!(matches!(
        extract(&process, &two_mappings(), 4096),
        Err(ExtractError::PageTableSizeMissing)
    ));
    process.fd_count = None;
    assert!(matches!(
        extract(&process, &two_mappings(), 4096),
        Err(ExtractError::PageTableSizeMissing)
    ));
}

#[test]
fn missing_descriptor_count_is_an_error() {
    let mut process = shell(1);
    process.fd_count = None;
    assert!(matches!(
        extract(&process, &two_mappings(), 4096),
        Err(ExtractError::DescriptorCountMissing)
    ));
}

#[test]
fn mapping_that_ends_before_it_starts_is_an_error() {
    let maps = vec![
        (MemoryMap { address: (0, 4096) }, Vec::new()),
        (MemoryMap { address: (4097, 4096) }, Vec::new()),
    ];
    assert!(matches!(extract(&shell(1), &maps, 4096), Err(ExtractError::MalformedMapping)));
    let overflowing = vec![
        (MemoryMap { address: (0, u64::MAX) }, Vec::new()),
        (MemoryMap { address: (0, u64::MAX) }, Vec::new()),
        (MemoryMap { address: (1, 0) }, Vec::new()),
    ];
    assert!(matches!(
        extract(&shell(1), &overflowing, 4096),
        Err(ExtractError::MalformedMapping)
    ));
}

#[test]
fn sizes_that_do_not_fit_are_an_error() {
    let wide = vec![
        (MemoryMap { address: (0, u64::MAX) }, Vec::new()),
        (MemoryMap { address: (0, 1) }, Vec::new()),
    ];
    assert!(matches!(extract(&shell(1), &wide, 4096), Err(ExtractError::SizeOverflow)));
    let resident = vec![(
        MemoryMap { address: (0, 8192) },
        vec![PageInfo::MemoryPage { pfn: 1 }, PageInfo::MemoryPage { pfn: 2 }],
    )];
    assert!(matches!(
        extract(&shell(1), &resident, u64::MAX),
        Err(ExtractError::SizeOverflow)
    ));
    let just_fits = vec![(MemoryMap { address: (0, u64::MAX) }, Vec::new())];
    let info = extract(&shell(1), &just_fits, 4096).unwrap().unwrap();
    assert_eq!(info.vsz, u64::MAX);
}

#[test]
fn page_size_of_zero_gives_no_resident_bytes() {
    let info = extract(&shell(1), &two_mappings(), 0).unwrap().unwrap();
    assert_eq!(info.rss, 0);
    assert_eq!(info.pfns.len(), 3);
}

#[test]
fn get_info_uses_the_page_size_of_the_machine() {
    let info = get_info(&shell(41), &two_mappings()).unwrap().unwrap();
    assert_eq!(info.rss, 3 * procfs::page_size());
    assert_eq!(info.pfns.to_vec(), vec![0, 10, 11]);
    assert_eq!(info.vsz, 0x5000);
}
