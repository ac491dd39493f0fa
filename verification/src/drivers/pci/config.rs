//! The configuration space of a PCI function.

use vstd::prelude::*;
use vstd::set_lib::lemma_int_range;

verus! {

/// The configuration space of a function, in words of four bytes.
pub struct ConfigSpace {
    words: Vec<u32>,
}

impl View for ConfigSpace {
    type V = Seq<u32>;

    closed spec fn view(&self) -> Seq<u32> {
        self.words@
    }
}

impl ConfigSpace {
    pub open spec fn wf(&self) -> bool {
        self@.len() == 64
    }

    /// A configuration space as it was read. There is none with another number
    /// of words.
    pub fn new(words: Vec<u32>) -> (r: Option<Self>)
        ensures
            match r {
                Some(config) => config.wf() && config@ == words@,
                None => words@.len() != 64,
            },
    {
        if words.len() == 64 {
            Some(ConfigSpace { words })
        } else {
            None
        }
    }
}

/// The number of the word that holds a byte.
pub open spec fn word_of(offset: u8) -> int {
    offset as int / 4
}

/// Half a word: the upper one for a byte of its upper half.
pub open spec fn half(word: u32, offset: u8) -> u16 {
    if offset as int % 4 >= 2 {
        (word as int / 0x1_0000) as u16
    } else {
        (word as int % 0x1_0000) as u16
    }
}

/// A word with another half.
pub open spec fn with_half(word: u32, offset: u8, value: u16) -> u32 {
    if offset as int % 4 >= 2 {
        (word as int % 0x1_0000 + value * 0x1_0000) as u32
    } else {
        (word - word as int % 0x1_0000 + value) as u32
    }
}

/// The address by which a word is asked for at the port of the bus.
pub open spec fn build_addr(bus: u8, slot: u8, func: u8, offset: u8) -> u32 {
    (bus as u32) << 16 | (slot as u32) << 11 | (func as u32) << 8 | (offset & 0xFC) as u32
        | 0x8000_0000
}

pub fn pci_build_addr(bus: u8, slot: u8, func: u8, offset: u8) -> (r: u32)
    ensures
        r == build_addr(bus, slot, func, offset),
{
    (bus as u32) << 16 | (slot as u32) << 11 | (func as u32) << 8 | (offset & 0xFC) as u32
        | 0x8000_0000
}

/// The address of a word is made of the numbers of the bus, the device, the
/// function and the word, each in bits of its own.
pub proof fn law_address_parts(bus: u8, slot: u8, func: u8, offset: u8)
    requires
        slot < 32,
        func < 8,
    ensures
        build_addr(bus, slot, func, offset) == 0x8000_0000 + bus * 0x1_0000 + slot * 0x800 + func
            * 0x100 + word_of(offset) * 4,
{
    let b = bus as u32;
    let s = slot as u32;
    let f = func as u32;
    let o = offset as u32;
    assert(b << 16 | s << 11 | f << 8 | (o & 0xFC) | 0x8000_0000 == 0x8000_0000 + b * 0x1_0000 + s
        * 0x800 + f * 0x100 + o / 4 * 4) by (bit_vector)
        requires
            b < 256,
            s < 32,
            f < 8,
            o < 256,
    ;
}

pub fn pci_config_read_32(config: &ConfigSpace, offset: u8) -> (r: u32)
    requires
        config.wf(),
    ensures
        r == config@[word_of(offset)],
{
    config.words[(offset / 4) as usize]
}

pub fn pci_config_read_16(config: &ConfigSpace, offset: u8) -> (r: u16)
    requires
        config.wf(),
    ensures
        r == half(config@[word_of(offset)], offset),
{
    let word = pci_config_read_32(config, offset);
    if offset % 4 >= 2 {
        (word / 0x1_0000) as u16
    } else {
        (word % 0x1_0000) as u16
    }
}

pub fn pci_config_write_32(config: &mut ConfigSpace, offset: u8, value: u32)
    requires
        old(config).wf(),
    ensures
        final(config).wf(),
        final(config)@ == old(config)@.update(word_of(offset), value),
{
    config.words.set((offset / 4) as usize, value);
}

/// Writes half a word. The other half stays as it is.
pub fn pci_config_write_16(config: &mut ConfigSpace, offset: u8, value: u16)
    requires
        old(config).wf(),
    ensures
        final(config).wf(),
        final(config)@ == old(config)@.update(
            word_of(offset),
            with_half(old(config)@[word_of(offset)], offset, value),
        ),
{
    let word = pci_config_read_32(config, offset);
    let changed = if offset % 4 >= 2 {
        word % 0x1_0000 + value as u32 * 0x1_0000
    } else {
        word - word % 0x1_0000 + value as u32
    };
    pci_config_write_32(config, offset, changed);
}

/// What is written into half a word is read back from it, and the other half
/// is as it was.
pub proof fn law_half_reads_back(word: u32, offset: u8, value: u16, other: u8)
    ensures
        half(with_half(word, offset, value), offset) == value,
        (offset as int % 4 >= 2) != (other as int % 4 >= 2) ==> half(
            with_half(word, offset, value),
            other,
        ) == half(word, other),
{
}

/// The identifier of a capability.
pub open spec fn cap_id(config: Seq<u32>, ptr: u8) -> u8 {
    (config[word_of(ptr)] as int % 0x100) as u8
}

/// Where the next capability is, zero if there is none.
pub open spec fn cap_next(config: Seq<u32>, ptr: u8) -> u8 {
    (config[word_of(ptr)] as int / 0x100 % 0x100) as u8
}

/// Where the first capability is, zero if there is none.
pub open spec fn first_cap(config: Seq<u32>) -> u8 {
    (config[13] as int % 0x100) as u8
}

/// Where a list of capabilities has got to after `k` steps.
pub open spec fn cap_after(config: Seq<u32>, ptr: u8, k: nat) -> u8
    decreases k,
{
    if k == 0 {
        ptr
    } else {
        cap_next(config, cap_after(config, ptr, (k - 1) as nat))
    }
}

/// The number of capabilities after which a list that has not ended goes
/// round in a circle.
pub const CAPABILITY_LIMIT: u32 = 256;

/// The first capability from `ptr` on, of at most `n`, that has the given
/// identifier.
pub open spec fn find_cap(config: Seq<u32>, ptr: u8, id: u8, n: nat) -> Option<u8>
    decreases n,
{
    if n == 0 || ptr == 0 {
        None
    } else if cap_id(config, ptr) == id {
        Some(ptr)
    } else {
        find_cap(config, cap_next(config, ptr), id, (n - 1) as nat)
    }
}

/// What the MSI-X capability of a function says: where it is, which base
/// address register its table is found by, the table's offset there, and how
/// many entries the table has.
#[derive(Debug, Clone, Copy, PartialEq, Eq, Structural)]
pub struct MsixCapability {
    pub cap_offset: u8,
    pub bir: u8,
    pub table_offset: u32,
    pub entries: usize,
}

pub const MSIX_CAPABILITY: u8 = 0x11;

/// The function has a list of capabilities.
pub open spec fn has_caps(config: Seq<u32>) -> bool {
    config[1] as int / 0x10_0000 % 2 == 1
}

/// Where the message control of an MSI-X capability is.
pub open spec fn control_offset(ptr: u8) -> u8 {
    ((ptr + 2) % 256) as u8
}

pub open spec fn msix_at(config: Seq<u32>, ptr: u8) -> MsixCapability {
    let table = config[word_of(((ptr + 4) % 256) as u8)];
    let at = control_offset(ptr);
    let control = half(config[word_of(at)], at);
    MsixCapability {
        cap_offset: ptr,
        bir: (table as int % 8) as u8,
        table_offset: (table - table as int % 8) as u32,
        entries: (control as int % 0x800 + 1) as usize,
    }
}

pub open spec fn msix_of(config: Seq<u32>) -> Option<MsixCapability> {
    if !has_caps(config) {
        None
    } else {
        match find_cap(config, first_cap(config), MSIX_CAPABILITY, CAPABILITY_LIMIT as nat) {
            None => None,
            Some(ptr) => Some(msix_at(config, ptr)),
        }
    }
}

/// Finds the MSI-X capability of a function.
pub fn pci_find_msix_cap(config: &ConfigSpace) -> (r: Option<MsixCapability>)
    requires
        config.wf(),
    ensures
        r == msix_of(config@),
{
    let status = pci_config_read_32(config, 0x4);
    if status / 0x10_0000 % 2 == 0 {
        return None;
    }
    let mut cap_ptr = (pci_config_read_32(config, 0x34) % 0x100) as u8;
    let mut left: u32 = CAPABILITY_LIMIT;
    while cap_ptr != 0 && left > 0
        invariant
            config.wf(),
            has_caps(config@),
            find_cap(config@, first_cap(config@), MSIX_CAPABILITY, CAPABILITY_LIMIT as nat)
                == find_cap(config@, cap_ptr, MSIX_CAPABILITY, left as nat),
        decreases left,
    {
        let cap = pci_config_read_32(config, cap_ptr);
        if (cap % 0x100) as u8 == MSIX_CAPABILITY {
            let table = pci_config_read_32(config, cap_ptr.wrapping_add(4));
            let control = pci_config_read_16(config, cap_ptr.wrapping_add(2));
            return Some(
                MsixCapability {
                    cap_offset: cap_ptr,
                    bir: (table % 8) as u8,
                    table_offset: table - table % 8,
                    entries: (control % 0x800) as usize + 1,
                },
            );
        }
        cap_ptr = (cap / 0x100 % 0x100) as u8;
        left -= 1;
    }
    None
}

pub fn pci_has_msix(config: &ConfigSpace) -> (r: bool)
    requires
        config.wf(),
    ensures
        r == (msix_of(config@) is Some),
{
    pci_find_msix_cap(config).is_some()
}

/// What a function says of itself.
#[derive(Debug, Clone, Copy, PartialEq, Eq, Structural)]
pub struct PCIDevice {
    pub bus: u8,
    pub slot: u8,
    pub func: u8,
    pub vendor_id: u16,
    pub device_id: u16,
    pub class: u8,
    pub subclass: u8,
    pub header_type: u8,
}

/// Reads what a function says of itself.
pub fn pci_device(config: &ConfigSpace, bus: u8, slot: u8, func: u8) -> (r: PCIDevice)
    requires
        config.wf(),
    ensures
        r == (PCIDevice {
            bus,
            slot,
            func,
            vendor_id: (config@[0] as int % 0x1_0000) as u16,
            device_id: (config@[0] as int / 0x1_0000) as u16,
            class: (config@[2] as int / 0x100_0000) as u8,
            subclass: (config@[2] as int / 0x1_0000 % 0x100) as u8,
            header_type: (config@[3] as int / 0x1_0000 % 0x100) as u8,
        }),
{
    let reg0 = pci_config_read_32(config, 0x0);
    let reg2 = pci_config_read_32(config, 0x8);
    let reg3 = pci_config_read_32(config, 0xC);
    PCIDevice {
        bus,
        slot,
        func,
        vendor_id: (reg0 % 0x1_0000) as u16,
        device_id: (reg0 / 0x1_0000) as u16,
        class: (reg2 / 0x100_0000) as u8,
        subclass: (reg2 / 0x1_0000 % 0x100) as u8,
        header_type: (reg3 / 0x1_0000 % 0x100) as u8,
    }
}

/// What has to be done to set an entry of the MSI-X table up: the pages of the
/// table that have to be mapped, and the address of the entry.
pub struct MsixEntryPlan {
    pub pages: Vec<u64>,
    pub entry: u64,
}

/// The table of a function lies in memory at `base`.
pub open spec fn table_at(cap: MsixCapability, base: u64) -> int {
    base + cap.table_offset
}

/// The pages that hold `len` bytes from `start` on.
pub open spec fn pages_around(start: int, len: int) -> Seq<u64> {
    Seq::new(
        ((start + len - 1) / 4096 - start / 4096 + 1) as nat,
        |i: int| ((start / 4096 + i) * 4096) as u64,
    )
}

/// The pages that hold some of `len` bytes from `start` on.
pub fn touched_pages(start: u64, len: u64) -> (r: Vec<u64>)
    requires
        len > 0,
        start + len <= u64::MAX,
    ensures
        r@ == pages_around(start as int, len as int),
{
    let mut pages: Vec<u64> = Vec::new();
    let mut page = start / 4096;
    let last = (start + len - 1) / 4096;
    let ghost all = pages_around(start as int, len as int);
    while page <= last
        invariant
            start as int / 4096 <= page <= last + 1,
            last == (start + len - 1) / 4096,
            start + len <= u64::MAX,
            len > 0,
            all == pages_around(start as int, len as int),
            pages@ =~= all.take(page - start as int / 4096),
        decreases last + 1 - page,
    {
        pages.push(page * 4096);
        page += 1;
    }
    assert(pages@ =~= all);
    pages
}

/// The message control with MSI-X enabled, and not masked for the function as
/// a whole.
pub open spec fn enabled(control: u16) -> u16 {
    (control as int % 0x4000 + 0x8000) as u16
}

/// The configuration space once MSI-X has been enabled in the message control
/// at `at`.
pub open spec fn with_msix_on(config: Seq<u32>, at: u8) -> Seq<u32> {
    let word = config[word_of(at)];
    config.update(word_of(at), with_half(word, at, enabled(half(word, at))))
}

/// Sets entry `entry_idx` of the MSI-X table up. `bar` is the address of the
/// memory that the table is found by, where there is such memory. It fails
/// where the function has no such entry or no such memory.
pub fn pci_setup_msix_entry(config: &mut ConfigSpace, bar: Option<u64>, entry_idx: usize) -> (r: Result<
    MsixEntryPlan,
    (),
>)
    requires
        old(config).wf(),
    ensures
        final(config).wf(),
        match (msix_of(old(config)@), bar) {
            (Some(cap), Some(base)) if entry_idx < cap.entries && table_at(cap, base) + cap.entries
                * 16 <= u64::MAX => {
                &&& r is Ok
                &&& r->Ok_0.pages@ == pages_around(table_at(cap, base), cap.entries * 16)
                &&& r->Ok_0.entry == table_at(cap, base) + entry_idx * 16
                &&& final(config)@ == with_msix_on(old(config)@, control_offset(cap.cap_offset))
            },
            _ => r is Err && final(config)@ == old(config)@,
        },
{
    let cap = match pci_find_msix_cap(config) {
        Some(cap) => cap,
        None => {
            return Err(());
        },
    };
    proof {
        lemma_entries(config@);
    }
    if entry_idx >= cap.entries {
        return Err(());
    }
    let base = match bar {
        Some(base) => base,
        None => {
            return Err(());
        },
    };
    let total = cap.entries as u64 * 16;
    if base > u64::MAX - cap.table_offset as u64 - total {
        return Err(());
    }
    let table = base + cap.table_offset as u64;
    let pages = touched_pages(table, total);
    let at = cap.cap_offset.wrapping_add(2);
    let control = pci_config_read_16(config, at);
    pci_config_write_16(config, at, control % 0x4000 + 0x8000);
    Ok(MsixEntryPlan { pages, entry: table + entry_idx as u64 * 16 })
}

proof fn lemma_entries(config: Seq<u32>)
    ensures
        msix_of(config) matches Some(cap) ==> 0 < cap.entries <= 0x800,
{
}

proof fn lemma_cap_period(config: Seq<u32>, ptr: u8, i: nat, j: nat, t: nat)
    requires
        cap_after(config, ptr, i) == cap_after(config, ptr, j),
    ensures
        cap_after(config, ptr, i + t) == cap_after(config, ptr, j + t),
    decreases t,
{
    if t > 0 {
        lemma_cap_period(config, ptr, i, j, (t - 1) as nat);
    }
}

/// A list of capabilities that ends does so within the number of steps that is
/// taken along it.
pub proof fn law_list_ends_in_time(config: Seq<u32>, ptr: u8, k: nat)
    requires
        cap_after(config, ptr, k) == 0,
    ensures
        exists|j: nat| j < CAPABILITY_LIMIT && #[trigger] cap_after(config, ptr, j) == 0,
    decreases k,
{
    if k >= CAPABILITY_LIMIT {
        if exists|j: nat| j < k && #[trigger] cap_after(config, ptr, j) == 0 {
            let j = choose|j: nat| j < k && #[trigger] cap_after(config, ptr, j) == 0;
            law_list_ends_in_time(config, ptr, j);
        } else {
            let s = Seq::new(k, |i: int| cap_after(config, ptr, i as nat) as int);
            assert(s.no_duplicates()) by {
                assert forall|i: int, j: int| 0 <= i < j < k implies s[i] != s[j] by {
                    if s[i] == s[j] {
                        let t = (k - j) as nat;
                        lemma_cap_period(config, ptr, i as nat, j as nat, t);
                        assert(cap_after(config, ptr, (i + t) as nat) == 0);
                    }
                }
            }
            lemma_int_range(1, 256);
            s.unique_seq_to_set();
            assert(s.to_set().subset_of(vstd::set_lib::set_int_range(1, 256))) by {
                assert forall|x: int| s.to_set().contains(x) implies 1 <= x < 256 by {
                    let i = choose|i: int| 0 <= i < s.len() && s[i] == x;
                    assert(cap_after(config, ptr, i as nat) != 0);
                }
            }
            vstd::set_lib::lemma_len_subset(
                s.to_set(),
                vstd::set_lib::set_int_range(1, 256),
            );
        }
    }
}

} // verus!
