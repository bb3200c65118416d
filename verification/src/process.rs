//! A process as the kernel reports it, and the footprint extracted from it.

use crate::ordered_set::OrderedSet;
use crate::pagemap::backed_pages;
use crate::pagemap::lemma_backed_pages_bound;
use crate::pagemap::lemma_page_sets_push;
use crate::pagemap::page_frames;
use crate::pagemap::page_swap_slots;
use crate::pagemap::MemoryMap;
use crate::pagemap::PageInfo;
use crate::pagemap::SwapSlot;
use crate::ordered_set::lemma_push_to_set;
use vstd::prelude::*;

verus! {

/// A snapshot of one process: what was read about it, as plain values.
pub struct Process {
    /// The process identity.
    pub pid: i32,
    /// The numeric identifier of the owning account.
    pub uid: u32,
    /// The command line, one argument per element. It is empty for a process
    /// that the kernel owns.
    pub cmdline: Vec<String>,
    /// The size of the page table, where the status of the process gives it.
    pub vmpte: Option<u64>,
    /// The number of open file descriptors, where it could be counted.
    pub fd_count: Option<usize>,
    /// The environment block: pairs of a variable's name and its value.
    pub environ: Vec<(String, String)>,
    /// The mappings with the entry of each of their pages, where they could
    /// be resolved.
    pub memory_maps: Option<Vec<(MemoryMap, Vec<PageInfo>)>>,
}

/// The footprint of one process.
pub struct ProcessInfo {
    pub pid: i32,
    /// The physical frames that back pages of the process.
    pub pfns: OrderedSet<u64>,
    /// The swap slots that hold pages of the process.
    pub swap_pages: OrderedSet<SwapSlot>,
    /// The size of the pages that a frame backs, in bytes.
    pub rss: u64,
    /// The size of the mappings, in bytes.
    pub vsz: u64,
    /// The size of the page table.
    pub pte: u64,
    /// The number of open file descriptors.
    pub fds: usize,
}

/// The mathematical content of a [`ProcessInfo`].
pub struct Footprint {
    pub pid: i32,
    pub pfns: Set<u64>,
    pub swap_pages: Set<SwapSlot>,
    pub rss: nat,
    pub vsz: nat,
    pub pte: nat,
    pub fds: nat,
}

impl View for ProcessInfo {
    type V = Footprint;

    open spec fn view(&self) -> Footprint {
        Footprint {
            pid: self.pid,
            pfns: self.pfns@,
            swap_pages: self.swap_pages@,
            rss: self.rss as nat,
            vsz: self.vsz as nat,
            pte: self.pte as nat,
            fds: self.fds as nat,
        }
    }
}

/// Why no footprint can be given for a process that has a command line.
#[derive(Clone, Copy, Debug, PartialEq, Eq, Structural)]
pub enum ExtractError {
    /// The status of the process gives no page-table size.
    PageTableSizeMissing,
    /// The open file descriptors could not be counted.
    DescriptorCountMissing,
    /// A mapping ends before it starts.
    MalformedMapping,
    /// A size in bytes does not fit in 64 bits.
    SizeOverflow,
}

/// Whether the mapping ends no earlier than it starts.
pub open spec fn mapping_is_valid(map: MemoryMap) -> bool {
    map.address.0 <= map.address.1
}

/// The number of bytes that the mapping covers.
pub open spec fn mapping_len(map: MemoryMap) -> nat {
    if mapping_is_valid(map) {
        (map.address.1 - map.address.0) as nat
    } else {
        0
    }
}

/// Whether every mapping of `maps` is valid.
pub open spec fn mappings_are_valid(maps: Seq<(MemoryMap, Vec<PageInfo>)>) -> bool {
    forall|i: int| 0 <= i < maps.len() ==> mapping_is_valid((#[trigger] maps[i]).0)
}

/// The sum of the sizes of the mappings.
pub open spec fn mapped_bytes(maps: Seq<(MemoryMap, Vec<PageInfo>)>) -> nat
    decreases maps.len(),
{
    if maps.len() == 0 {
        0
    } else {
        mapped_bytes(maps.drop_last()) + mapping_len(maps.last().0)
    }
}

/// The number of pages, over all the mappings, that a frame backs.
pub open spec fn backed_total(maps: Seq<(MemoryMap, Vec<PageInfo>)>) -> nat
    decreases maps.len(),
{
    if maps.len() == 0 {
        0
    } else {
        backed_total(maps.drop_last()) + backed_pages(maps.last().1@)
    }
}

/// The frames that the entries of any of the mappings name.
pub open spec fn mapped_frames(maps: Seq<(MemoryMap, Vec<PageInfo>)>) -> Set<u64> {
    Set::new(
        |pfn: u64| exists|i: int| 0 <= i < maps.len() && page_frames((#[trigger] maps[i]).1@).contains(pfn),
    )
}

/// The swap slots that the entries of any of the mappings name.
pub open spec fn mapped_swap_slots(maps: Seq<(MemoryMap, Vec<PageInfo>)>) -> Set<SwapSlot> {
    Set::new(
        |slot: SwapSlot|
            exists|i: int|
                0 <= i < maps.len() && page_swap_slots((#[trigger] maps[i]).1@).contains(slot),
    )
}

/// The footprint of a process with the mappings `maps`, on a machine whose
/// pages have `page_size` bytes.
///
/// Every frame that an entry names is a member of `pfns`, the zero frame too:
/// an entry with the zero frame has no page behind it, so it adds nothing to
/// `rss`, but it is listed.
pub open spec fn footprint(
    process: Process,
    maps: Seq<(MemoryMap, Vec<PageInfo>)>,
    page_size: u64,
) -> Footprint {
    Footprint {
        pid: process.pid,
        pfns: mapped_frames(maps),
        swap_pages: mapped_swap_slots(maps),
        rss: backed_total(maps) * page_size as nat,
        vsz: mapped_bytes(maps),
        pte: process.vmpte.unwrap() as nat,
        fds: process.fd_count.unwrap() as nat,
    }
}

/// What extraction gives for a process: nothing where it has no command
/// line, else an error where a counter is missing, a mapping is malformed or
/// a size does not fit, else its footprint.
pub open spec fn extraction(
    process: Process,
    maps: Seq<(MemoryMap, Vec<PageInfo>)>,
    page_size: u64,
) -> Result<Option<Footprint>, ExtractError> {
    if process.cmdline@.len() == 0 {
        Ok(None)
    } else if process.vmpte is None {
        Err(ExtractError::PageTableSizeMissing)
    } else if process.fd_count is None {
        Err(ExtractError::DescriptorCountMissing)
    } else if !mappings_are_valid(maps) {
        Err(ExtractError::MalformedMapping)
    } else if mapped_bytes(maps) > u64::MAX || backed_total(maps) * page_size > u64::MAX {
        Err(ExtractError::SizeOverflow)
    } else {
        Ok(Some(footprint(process, maps, page_size)))
    }
}

/// Whether the result `r` is what `model` describes.
pub open spec fn outcome_matches(
    r: Result<Option<ProcessInfo>, ExtractError>,
    model: Result<Option<Footprint>, ExtractError>,
) -> bool {
    match model {
        Ok(Some(expected)) => r matches Ok(Some(info)) && info@ == expected,
        Ok(None) => r matches Ok(None),
        Err(e) => r matches Err(x) && x == e,
    }
}

/// The sums over a prefix of the mappings are no greater than the sums over
/// all of them.
pub proof fn lemma_prefix_sums(maps: Seq<(MemoryMap, Vec<PageInfo>)>, n: int)
    requires
        0 <= n <= maps.len(),
    ensures
        mapped_bytes(maps.take(n)) <= mapped_bytes(maps),
        backed_total(maps.take(n)) <= backed_total(maps),
    decreases maps.len(),
{
    if n == maps.len() {
        assert(maps.take(n) =~= maps);
    } else {
        lemma_prefix_sums(maps.drop_last(), n);
        assert(maps.drop_last().take(n) =~= maps.take(n));
    }
}

/// The sums and sets over a prefix that is one mapping longer.
pub proof fn lemma_next_mapping(maps: Seq<(MemoryMap, Vec<PageInfo>)>, n: int)
    requires
        0 <= n < maps.len(),
    ensures
        mapped_bytes(maps.take(n + 1)) == mapped_bytes(maps.take(n)) + mapping_len(maps[n].0),
        backed_total(maps.take(n + 1)) == backed_total(maps.take(n)) + backed_pages(maps[n].1@),
        mapped_frames(maps.take(n + 1)) == mapped_frames(maps.take(n)).union(
            page_frames(maps[n].1@),
        ),
        mapped_swap_slots(maps.take(n + 1)) == mapped_swap_slots(maps.take(n)).union(
            page_swap_slots(maps[n].1@),
        ),
{
    let shorter = maps.take(n);
    let longer = maps.take(n + 1);
    assert(longer.drop_last() =~= shorter);
    assert(longer.last() == maps[n]);
    assert forall|pfn: u64|
        mapped_frames(longer).contains(pfn) == mapped_frames(shorter).union(
            page_frames(maps[n].1@),
        ).contains(pfn) by {
        if mapped_frames(longer).contains(pfn) {
            let i = choose|i: int|
                0 <= i < longer.len() && page_frames((#[trigger] longer[i]).1@).contains(pfn);
            if i < n {
                assert(page_frames(shorter[i].1@).contains(pfn));
            }
        }
        if mapped_frames(shorter).contains(pfn) {
            let i = choose|i: int|
                0 <= i < shorter.len() && page_frames((#[trigger] shorter[i]).1@).contains(pfn);
            assert(page_frames(longer[i].1@).contains(pfn));
        }
        if page_frames(maps[n].1@).contains(pfn) {
            assert(page_frames(longer[n].1@).contains(pfn));
        }
    }
    assert(mapped_frames(longer) =~= mapped_frames(shorter).union(page_frames(maps[n].1@)));
    assert forall|slot: SwapSlot|
        mapped_swap_slots(longer).contains(slot) == mapped_swap_slots(shorter).union(
            page_swap_slots(maps[n].1@),
        ).contains(slot) by {
        if mapped_swap_slots(longer).contains(slot) {
            let i = choose|i: int|
                0 <= i < longer.len() && page_swap_slots((#[trigger] longer[i]).1@).contains(slot);
            if i < n {
                assert(page_swap_slots(shorter[i].1@).contains(slot));
            }
        }
        if mapped_swap_slots(shorter).contains(slot) {
            let i = choose|i: int|
                0 <= i < shorter.len() && page_swap_slots((#[trigger] shorter[i]).1@).contains(
                    slot,
                );
            assert(page_swap_slots(longer[i].1@).contains(slot));
        }
        if page_swap_slots(maps[n].1@).contains(slot) {
            assert(page_swap_slots(longer[n].1@).contains(slot));
        }
    }
    assert(mapped_swap_slots(longer) =~= mapped_swap_slots(shorter).union(
        page_swap_slots(maps[n].1@),
    ));
}

/// The frames and the swap slots that a list of entries names are finitely
/// many.
pub proof fn lemma_page_sets_finite(pages: Seq<PageInfo>)
    ensures
        page_frames(pages).finite(),
        page_swap_slots(pages).finite(),
    decreases pages.len(),
{
    if pages.len() == 0 {
        assert(page_frames(pages) =~= Set::<u64>::empty());
        assert(page_swap_slots(pages) =~= Set::<SwapSlot>::empty());
    } else {
        lemma_page_sets_finite(pages.drop_last());
        lemma_page_sets_push(pages.drop_last(), pages.last());
        assert(pages.drop_last().push(pages.last()) =~= pages);
    }
}

/// The frames and the swap slots that the mappings name are finitely many.
pub proof fn lemma_mapped_sets_finite(maps: Seq<(MemoryMap, Vec<PageInfo>)>)
    ensures
        mapped_frames(maps).finite(),
        mapped_swap_slots(maps).finite(),
    decreases maps.len(),
{
    if maps.len() == 0 {
        assert(mapped_frames(maps) =~= Set::<u64>::empty());
        assert(mapped_swap_slots(maps) =~= Set::<SwapSlot>::empty());
    } else {
        let n = maps.len() - 1;
        lemma_mapped_sets_finite(maps.take(n));
        lemma_next_mapping(maps, n);
        lemma_page_sets_finite(maps[n].1@);
        assert(maps.take(n + 1) =~= maps);
    }
}

/// A process without a command line has no footprint. One with a command
/// line has a footprint wherever both counters are present, every mapping is
/// valid and the sizes fit in 64 bits.
pub proof fn lemma_extraction_is_defined(
    process: Process,
    maps: Seq<(MemoryMap, Vec<PageInfo>)>,
    page_size: u64,
)
    ensures
        process.cmdline@.len() == 0 ==> extraction(process, maps, page_size) == Ok::<
            Option<Footprint>,
            ExtractError,
        >(None),
        process.cmdline@.len() > 0 && process.vmpte is Some && process.fd_count is Some
            && mappings_are_valid(maps) && mapped_bytes(maps) <= u64::MAX && backed_total(maps)
            * page_size <= u64::MAX ==> extraction(process, maps, page_size) == Ok::<
            Option<Footprint>,
            ExtractError,
        >(Some(footprint(process, maps, page_size))),
        process.cmdline@.len() > 0 ==> !(extraction(process, maps, page_size) matches Ok(None)),
{
}

/// A process with a command line, both counters and no mapping has a
/// footprint without frames and swap slots, of zero resident and mapped
/// bytes.
pub proof fn lemma_no_mappings(process: Process, page_size: u64)
    requires
        process.cmdline@.len() > 0,
        process.vmpte is Some,
        process.fd_count is Some,
    ensures
        extraction(process, Seq::empty(), page_size) == Ok::<Option<Footprint>, ExtractError>(
            Some(
                Footprint {
                    pid: process.pid,
                    pfns: Set::empty(),
                    swap_pages: Set::empty(),
                    rss: 0,
                    vsz: 0,
                    pte: process.vmpte.unwrap() as nat,
                    fds: process.fd_count.unwrap() as nat,
                },
            ),
        ),
{
    let maps = Seq::<(MemoryMap, Vec<PageInfo>)>::empty();
    assert(mapped_frames(maps) =~= Set::<u64>::empty());
    assert(mapped_swap_slots(maps) =~= Set::<SwapSlot>::empty());
    assert(backed_total(maps) * page_size == 0) by (nonlinear_arith)
        requires
            backed_total(maps) == 0,
    ;
}


/// `procfs::page_size`: the size of a memory page on this machine, in bytes.
/// The value depends on the machine, so nothing is claimed of it.
#[verifier::external_body]
pub(crate) fn machine_page_size() -> u64 {
    procfs::page_size()
}

/// Whether every mapping ends no earlier than it starts.
fn check_mappings(memory_maps: &[(MemoryMap, Vec<PageInfo>)]) -> (valid: bool)
    ensures
        valid == mappings_are_valid(memory_maps@),
{
    let mut i: usize = 0;
    while i < memory_maps.len()
        invariant
            i <= memory_maps.len(),
            forall|k: int| 0 <= k < i ==> mapping_is_valid((#[trigger] memory_maps@[k]).0),
        decreases memory_maps.len() - i,
    {
        if memory_maps[i].0.address.0 > memory_maps[i].0.address.1 {
            return false;
        }
        i += 1;
    }
    true
}

/// The sum of the sizes of the mappings, where it fits in 64 bits.
fn total_mapped(memory_maps: &[(MemoryMap, Vec<PageInfo>)]) -> (total: Option<u64>)
    requires
        mappings_are_valid(memory_maps@),
    ensures
        total == if mapped_bytes(memory_maps@) <= u64::MAX {
            Some(mapped_bytes(memory_maps@) as u64)
        } else {
            None
        },
{
    let mut vsz: u64 = 0;
    let mut i: usize = 0;
    while i < memory_maps.len()
        invariant
            i <= memory_maps.len(),
            mappings_are_valid(memory_maps@),
            vsz == mapped_bytes(memory_maps@.take(i as int)),
        decreases memory_maps.len() - i,
    {
        proof {
            lemma_next_mapping(memory_maps@, i as int);
            lemma_prefix_sums(memory_maps@, i + 1);
        }
        let address = memory_maps[i].0.address;
        match vsz.checked_add(address.1 - address.0) {
            Some(sum) => {
                vsz = sum;
            },
            None => {
                return None;
            },
        }
        i += 1;
    }
    assert(memory_maps@.take(memory_maps.len() as int) =~= memory_maps@);
    Some(vsz)
}

/// Appends to `frames` and to `slots` what the entries of `pages` name, and
/// counts the entries that a frame backs.
fn collect_pages(pages: &Vec<PageInfo>, frames: &mut Vec<u64>, slots: &mut Vec<SwapSlot>) -> (backed:
    usize)
    ensures
        final(frames)@.to_set() == old(frames)@.to_set().union(page_frames(pages@)),
        final(slots)@.to_set() == old(slots)@.to_set().union(page_swap_slots(pages@)),
        backed == backed_pages(pages@),
{
    let mut backed: usize = 0;
    let mut j: usize = 0;
    proof {
        assert(page_frames(pages@.take(0)) =~= Set::<u64>::empty());
        assert(page_swap_slots(pages@.take(0)) =~= Set::<SwapSlot>::empty());
        assert(frames@.to_set() =~= old(frames)@.to_set().union(page_frames(pages@.take(0))));
        assert(slots@.to_set() =~= old(slots)@.to_set().union(page_swap_slots(pages@.take(0))));
    }
    while j < pages.len()
        invariant
            j <= pages.len(),
            frames@.to_set() == old(frames)@.to_set().union(page_frames(pages@.take(j as int))),
            slots@.to_set() == old(slots)@.to_set().union(page_swap_slots(pages@.take(j as int))),
            backed == backed_pages(pages@.take(j as int)),
        decreases pages.len() - j,
    {
        let ghost done = pages@.take(j as int);
        let ghost frames_before = frames@;
        let ghost slots_before = slots@;
        proof {
            assert(pages@.take(j + 1) =~= done.push(pages@[j as int]));
            assert(pages@.take(j + 1).drop_last() =~= done);
            lemma_page_sets_push(done, pages@[j as int]);
            lemma_backed_pages_bound(done);
        }
        match pages[j] {
            PageInfo::MemoryPage { pfn } => {
                if pfn != 0 {
                    backed += 1;
                }
                frames.push(pfn);
                proof {
                    lemma_push_to_set(frames_before, pfn);
                    assert(frames@.to_set() =~= old(frames)@.to_set().union(
                        page_frames(pages@.take(j + 1)),
                    ));
                }
            },
            PageInfo::SwapPage { swap_type, offset } => {
                let slot = SwapSlot { swap_type, offset };
                slots.push(slot);
                proof {
                    lemma_push_to_set(slots_before, slot);
                    assert(slots@.to_set() =~= old(slots)@.to_set().union(
                        page_swap_slots(pages@.take(j + 1)),
                    ));
                }
            },
        }
        j += 1;
    }
    assert(pages@.take(pages.len() as int) =~= pages@);
    backed
}

/// The footprint of `process` from its mappings `memory_maps`, on a machine
/// whose pages have `page_size` bytes.
///
/// A process without a command line belongs to the kernel and has no
/// footprint. The zero frame is listed among the frames where an entry names
/// it, though no page stands behind it and it adds nothing to `rss`: every
/// process with such an entry then shares that one frame with every other.
pub fn extract(
    process: &Process,
    memory_maps: &[(MemoryMap, Vec<PageInfo>)],
    page_size: u64,
) -> (r: Result<Option<ProcessInfo>, ExtractError>)
    ensures
        outcome_matches(r, extraction(*process, memory_maps@, page_size)),
{
    if process.cmdline.len() == 0 {
        return Ok(None);
    }
    let pte = match process.vmpte {
        Some(pte) => pte,
        None => {
            return Err(ExtractError::PageTableSizeMissing);
        },
    };
    let fds = match process.fd_count {
        Some(fds) => fds,
        None => {
            return Err(ExtractError::DescriptorCountMissing);
        },
    };
    if !check_mappings(memory_maps) {
        return Err(ExtractError::MalformedMapping);
    }
    let total = total_mapped(memory_maps);
    let mut frames: Vec<u64> = Vec::new();
    let mut slots: Vec<SwapSlot> = Vec::new();
    let mut rss: u64 = 0;
    let mut i: usize = 0;
    proof {
        assert(mapped_frames(memory_maps@.take(0)) =~= Set::<u64>::empty());
        assert(mapped_swap_slots(memory_maps@.take(0)) =~= Set::<SwapSlot>::empty());
        assert(frames@.to_set() =~= Set::<u64>::empty());
        assert(slots@.to_set() =~= Set::<SwapSlot>::empty());
    }
    while i < memory_maps.len()
        invariant
            i <= memory_maps.len(),
            frames@.to_set() == mapped_frames(memory_maps@.take(i as int)),
            slots@.to_set() == mapped_swap_slots(memory_maps@.take(i as int)),
            rss == backed_total(memory_maps@.take(i as int)) * page_size,
            process.cmdline@.len() != 0,
            process.vmpte is Some,
            process.fd_count is Some,
            mappings_are_valid(memory_maps@),
        decreases memory_maps.len() - i,
    {
        let ghost before = backed_total(memory_maps@.take(i as int));
        let backed = collect_pages(&memory_maps[i].1, &mut frames, &mut slots);
        proof {
            lemma_next_mapping(memory_maps@, i as int);
            lemma_prefix_sums(memory_maps@, i + 1);
            let after = backed_total(memory_maps@.take(i + 1));
            let all = backed_total(memory_maps@);
            assert((before + backed) * page_size == before * page_size + backed * page_size)
                by (nonlinear_arith);
            assert(after * page_size <= all * page_size) by (nonlinear_arith)
                requires
                    after <= all,
            ;
        }
        let bytes = match (backed as u64).checked_mul(page_size) {
            Some(bytes) => bytes,
            None => {
                return Err(ExtractError::SizeOverflow);
            },
        };
        rss = match rss.checked_add(bytes) {
            Some(sum) => sum,
            None => {
                return Err(ExtractError::SizeOverflow);
            },
        };
        i += 1;
    }
    assert(memory_maps@.take(memory_maps.len() as int) =~= memory_maps@);
    let vsz = match total {
        Some(vsz) => vsz,
        None => {
            return Err(ExtractError::SizeOverflow);
        },
    };
    let info = ProcessInfo {
        pid: process.pid,
        pfns: OrderedSet::from_vec(&frames),
        swap_pages: OrderedSet::from_vec(&slots),
        rss,
        vsz,
        pte,
        fds,
    };
    assert(info@ == footprint(*process, memory_maps@, page_size));
    Ok(Some(info))
}

/// The footprint of `process` from its mappings `memory_maps`, with the page
/// size of this machine.
pub fn get_info(process: &Process, memory_maps: &[(MemoryMap, Vec<PageInfo>)]) -> (r: Result<
    Option<ProcessInfo>,
    ExtractError,
>)
    ensures
        exists|page_size: u64| #[trigger]
            outcome_matches(r, extraction(*process, memory_maps@, page_size)),
{
    let page_size = machine_page_size();
    let r = extract(process, memory_maps, page_size);
    assert(outcome_matches(r, extraction(*process, memory_maps@, page_size)));
    r
}

} // verus!
