//! Page-table entries and memory mappings of a process.
//!
//! The kernel reports one 64-bit entry for each virtual page. An entry names
//! either the physical frame that backs the page, or the swap slot that the
//! page was moved to.

use crate::ordered_set::SetKey;
use procfs::process::MemoryPageFlags;
use procfs::process::SwapPageFlags;
use vstd::prelude::*;

verus! {

/// Bits 0 to 54 of an entry: the frame number of a page in memory.
pub const FRAME_MASK: u64 = 0x007f_ffff_ffff_ffff;

/// Bit 62 of an entry: set where the page is swapped out.
pub const SWAPPED_BIT: u64 = 0x4000_0000_0000_0000;

/// Bits 0 to 4 of an entry for a swapped page: the swap device.
pub const SWAP_TYPE_MASK: u64 = 0x1f;

/// Bits 5 to 54 of an entry for a swapped page: the offset on the device.
pub const SWAP_OFFSET_MASK: u64 = 0x007f_ffff_ffff_ffe0;

/// The identity of a swapped-out page: a swap device and an offset on it.
#[derive(Clone, Copy, Debug, PartialEq, Eq, Structural)]
pub struct SwapSlot {
    pub swap_type: u64,
    pub offset: u64,
}

/// Slots are ordered by device, then by offset.
impl SetKey for SwapSlot {
    open spec fn rank(self) -> int {
        self.swap_type as int * 0x1_0000_0000_0000_0000 + self.offset as int
    }

    proof fn rank_injective(a: SwapSlot, b: SwapSlot) {
    }

    fn precedes(&self, other: &SwapSlot) -> (r: bool) {
        self.swap_type < other.swap_type || (self.swap_type == other.swap_type && self.offset
            < other.offset)
    }
}

/// What one page-table entry says of its page.
#[derive(Clone, Copy, Debug, PartialEq, Eq, Structural)]
pub enum PageInfo {
    /// The page is in memory, backed by the frame `pfn`. A `pfn` of zero
    /// means that the entry exists but no frame backs it.
    MemoryPage { pfn: u64 },
    /// The page is swapped out to `offset` on the device `swap_type`.
    SwapPage { swap_type: u64, offset: u64 },
}

/// The address range of one mapping: `address.0` is its first byte and
/// `address.1` the byte after its last.
#[derive(Clone, Copy, Debug)]
pub struct MemoryMap {
    pub address: (u64, u64),
}

/// What the entry `entry` says of its page.
pub open spec fn decode_entry(entry: u64) -> PageInfo {
    if entry & SWAPPED_BIT != 0 {
        PageInfo::SwapPage {
            swap_type: entry & SWAP_TYPE_MASK,
            offset: (entry & SWAP_OFFSET_MASK) >> 5,
        }
    } else {
        PageInfo::MemoryPage { pfn: entry & FRAME_MASK }
    }
}

/// `MemoryPageFlags::from_bits_truncate` followed by `contains(SWAP)`:
/// whether bit 62 of the entry is set.
#[verifier::external_body]
fn entry_is_swapped(entry: u64) -> (swapped: bool)
    ensures
        swapped == (entry & SWAPPED_BIT != 0),
{
    MemoryPageFlags::from_bits_truncate(entry).contains(MemoryPageFlags::SWAP)
}

/// `MemoryPageFlags::from_bits_truncate` followed by `get_page_frame_number`:
/// bits 0 to 54 of the entry.
#[verifier::external_body]
fn entry_frame(entry: u64) -> (pfn: u64)
    ensures
        pfn == entry & FRAME_MASK,
{
    MemoryPageFlags::from_bits_truncate(entry).get_page_frame_number().0
}

/// `SwapPageFlags::from_bits_truncate` followed by `get_swap_type`: bits 0 to
/// 4 of the entry.
#[verifier::external_body]
fn entry_swap_type(entry: u64) -> (swap_type: u64)
    ensures
        swap_type == entry & SWAP_TYPE_MASK,
{
    SwapPageFlags::from_bits_truncate(entry).get_swap_type()
}

/// `SwapPageFlags::from_bits_truncate` followed by `get_swap_offset`: bits 5
/// to 54 of the entry, moved down to bit 0.
#[verifier::external_body]
fn entry_swap_offset(entry: u64) -> (offset: u64)
    ensures
        offset == (entry & SWAP_OFFSET_MASK) >> 5,
{
    SwapPageFlags::from_bits_truncate(entry).get_swap_offset()
}

impl PageInfo {
    /// Decodes one page-table entry.
    pub fn parse_info(entry: u64) -> (info: PageInfo)
        ensures
            info == decode_entry(entry),
            info.in_range(),
    {
        proof {
            lemma_decoded_in_range(entry);
        }
        if entry_is_swapped(entry) {
            PageInfo::SwapPage {
                swap_type: entry_swap_type(entry),
                offset: entry_swap_offset(entry),
            }
        } else {
            PageInfo::MemoryPage { pfn: entry_frame(entry) }
        }
    }

    /// Whether each number fits the bits that an entry has for it.
    pub open spec fn in_range(self) -> bool {
        match self {
            PageInfo::MemoryPage { pfn } => pfn <= FRAME_MASK,
            PageInfo::SwapPage { swap_type, offset } => swap_type < 32 && offset
                < 0x4_0000_0000_0000,
        }
    }
}

/// Every decoded number fits the bits that the entry has for it.
pub proof fn lemma_decoded_in_range(entry: u64)
    ensures
        decode_entry(entry).in_range(),
{
    assert(entry & 0x007f_ffff_ffff_ffffu64 <= 0x007f_ffff_ffff_ffffu64) by (bit_vector);
    assert(entry & 0x1fu64 < 32) by (bit_vector);
    assert((entry & 0x007f_ffff_ffff_ffe0u64) >> 5 < 0x4_0000_0000_0000u64) by (bit_vector);
}

/// The frames that the entries of `pages` name, the zero frame among them
/// where an entry names it.
pub open spec fn page_frames(pages: Seq<PageInfo>) -> Set<u64> {
    Set::new(|pfn: u64| pages.contains(PageInfo::MemoryPage { pfn }))
}

/// The swap slots that the entries of `pages` name.
pub open spec fn page_swap_slots(pages: Seq<PageInfo>) -> Set<SwapSlot> {
    Set::new(
        |slot: SwapSlot|
            pages.contains(PageInfo::SwapPage { swap_type: slot.swap_type, offset: slot.offset }),
    )
}

/// Whether the page is in memory and a frame backs it.
pub open spec fn is_backed(page: PageInfo) -> bool {
    page matches PageInfo::MemoryPage { pfn } && pfn != 0
}

/// The number of entries of `pages` that a frame backs.
pub open spec fn backed_pages(pages: Seq<PageInfo>) -> nat
    decreases pages.len(),
{
    if pages.len() == 0 {
        0
    } else {
        backed_pages(pages.drop_last()) + if is_backed(pages.last()) {
            1nat
        } else {
            0nat
        }
    }
}

/// No more entries are backed than there are entries.
pub proof fn lemma_backed_pages_bound(pages: Seq<PageInfo>)
    ensures
        backed_pages(pages) <= pages.len(),
    decreases pages.len(),
{
    if pages.len() > 0 {
        lemma_backed_pages_bound(pages.drop_last());
    }
}

/// The frames of a list of entries with one more entry at its end.
pub proof fn lemma_page_sets_push(pages: Seq<PageInfo>, page: PageInfo)
    ensures
        page_frames(pages.push(page)) == match page {
            PageInfo::MemoryPage { pfn } => page_frames(pages).insert(pfn),
            PageInfo::SwapPage { .. } => page_frames(pages),
        },
        page_swap_slots(pages.push(page)) == match page {
            PageInfo::MemoryPage { .. } => page_swap_slots(pages),
            PageInfo::SwapPage { swap_type, offset } => page_swap_slots(pages).insert(
                SwapSlot { swap_type, offset },
            ),
        },
{
    let more = pages.push(page);
    assert forall|p: PageInfo| more.contains(p) <==> (pages.contains(p) || p == page) by {
        if more.contains(p) {
            let i = choose|i: int| 0 <= i < more.len() && more[i] == p;
            if i < pages.len() {
                assert(pages[i] == p);
            }
        }
        if pages.contains(p) {
            let i = choose|i: int| 0 <= i < pages.len() && pages[i] == p;
            assert(more[i] == p);
        }
        if p == page {
            assert(more[pages.len() as int] == p);
        }
    }
    match page {
        PageInfo::MemoryPage { pfn } => {
            assert(page_frames(more) =~= page_frames(pages).insert(pfn));
            assert(page_swap_slots(more) =~= page_swap_slots(pages));
        },
        PageInfo::SwapPage { swap_type, offset } => {
            assert(page_frames(more) =~= page_frames(pages));
            assert(page_swap_slots(more) =~= page_swap_slots(pages).insert(
                SwapSlot { swap_type, offset },
            ));
        },
    }
}

} // verus!
