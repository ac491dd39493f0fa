//! Four-level page tables.
//!
//! Tables stand in physical memory. The table that is reached at `level` for a
//! group of pages is found from the root by `table_at`, and the entry for one
//! page or group by `slot`; level 3 is the root, level 0 holds base pages.
//! What a page maps to, `mapping`, is read off the slots.

use super::growth::{
    added, emptied, emptied_below, lemma_empty_table, lemma_leaf_added, lemma_leaf_removed,
    lemma_step_added, lemma_step_removed, lemma_way_there, way_added, way_removed,
};
use super::{table_index, FrameAllocator, PageFlags, PageSize, PhysAddr, VirtAddr};
use vstd::prelude::*;

verus! {

#[derive(Debug, Clone, Copy, PartialEq, Eq, Structural)]
pub enum PagerError {
    OutOfMemory,
    AlreadyMapped,
    NotMapped,
    InvalidAlignment,
    HugePageClash,
}

pub open spec fn present(entry: u64) -> bool {
    entry & PageFlags::PRESENT != 0
}

pub open spec fn huge(entry: u64) -> bool {
    entry & PageFlags::HUGE_PAGE != 0
}

/// The physical frame that an entry names.
pub open spec fn frame(entry: u64) -> u64 {
    entry & 0x000F_FFFF_FFFF_F000
}

/// The entry leads to a further table.
pub open spec fn links(entry: u64) -> bool {
    present(entry) && !huge(entry)
}

#[derive(Clone, Copy)]
pub struct PageTableEntry(u64);

impl PageTableEntry {
    pub closed spec fn raw(&self) -> u64 {
        self.0
    }

    pub fn empty() -> (r: Self)
        ensures
            r.raw() == 0,
    {
        Self(0)
    }

    pub fn clear(&mut self)
        ensures
            final(self).raw() == 0,
    {
        self.0 = 0;
    }

    pub fn is_present(&self) -> (r: bool)
        ensures
            r == present(self.raw()),
    {
        (self.0 & PageFlags::PRESENT) != 0
    }

    pub fn is_huge(&self) -> (r: bool)
        ensures
            r == huge(self.raw()),
    {
        (self.0 & PageFlags::HUGE_PAGE) != 0
    }

    pub fn get_frame(&self) -> (r: PhysAddr)
        ensures
            r.0 == frame(self.raw()),
    {
        PhysAddr(self.0 & 0x000F_FFFF_FFFF_F000)
    }

    pub fn set(&mut self, frame: PhysAddr, flags: PageFlags)
        ensures
            final(self).raw() == frame.0 | flags.0,
    {
        self.0 = frame.0 | flags.bits();
    }

    pub fn flags(&self) -> (r: PageFlags)
        ensures
            r.0 == self.raw() & 0xFFF0_0000_0000_0FFF,
    {
        PageFlags(self.0 & 0xFFF0_0000_0000_0FFF)
    }
}

#[derive(Clone, Copy)]
pub struct PageTable {
    entries: [PageTableEntry; 512],
}

impl PageTable {
    pub closed spec fn view(&self) -> Seq<u64> {
        Seq::new(512, |i: int| self.entries[i].raw())
    }

    pub proof fn lemma_len(&self)
        ensures
            self@.len() == 512,
    {
    }

    /// The table at a physical address.
    pub fn from_phys(memory: &mut PhysMemory, phys: PhysAddr) -> (r: &mut PageTable)
        requires
            old(memory).has(phys.0),
        ensures
            r@ == old(memory)@[phys.0],
            final(memory)@ == old(memory)@.insert(phys.0, final(r)@),
    {
        memory.table_mut(phys.0)
    }

    pub fn zero(&mut self)
        ensures
            final(self)@ == Seq::new(512, |i: int| 0u64),
    {
        let mut i: usize = 0;
        while i < 512
            invariant
                i <= 512,
                forall|j: int| 0 <= j < i ==> (#[trigger] self.entries[j]).raw() == 0,
            decreases 512 - i,
        {
            self.entries[i].clear();
            i += 1;
        }
        assert(self@ =~= Seq::new(512, |i: int| 0u64));
    }

    /// Whether none of the 512 entries is present.
    pub fn is_empty(&self) -> (r: bool)
        ensures
            r == (forall|i: int| 0 <= i < 512 ==> !present(#[trigger] self@[i])),
    {
        let mut i: usize = 0;
        while i < 512
            invariant
                i <= 512,
                forall|j: int| 0 <= j < i ==> !present(#[trigger] self@[j]),
            decreases 512 - i,
        {
            if self.entries[i].is_present() {
                assert(present(self@[i as int]));
                return false;
            }
            i += 1;
        }
        true
    }

    /// The word at an index, whatever it stands for.
    pub fn word(&self, idx: usize) -> (r: u64)
        requires
            idx < 512,
        ensures
            r == self@[idx as int],
    {
        self.entries[idx].0
    }

    pub fn set_word(&mut self, idx: usize, word: u64)
        requires
            idx < 512,
        ensures
            final(self)@ == old(self)@.update(idx as int, word),
    {
        self.set_entry(idx, PageTableEntry(word));
    }

    pub fn entry(&self, idx: usize) -> (r: PageTableEntry)
        requires
            idx < 512,
        ensures
            r.raw() == self@[idx as int],
    {
        self.entries[idx]
    }

    pub fn set_entry(&mut self, idx: usize, entry: PageTableEntry)
        requires
            idx < 512,
        ensures
            final(self)@ == old(self)@.update(idx as int, entry.raw()),
    {
        self.entries[idx] = entry;
        assert(self@ =~= old(self)@.update(idx as int, entry.raw()));
    }
}

/// Physical memory, read as page tables: the frame at `4096 * i` is the
/// `i`-th table.
pub struct PhysMemory {
    frames: Vec<PageTable>,
}

impl PhysMemory {
    pub closed spec fn has(&self, phys: u64) -> bool {
        phys as int % 4096 == 0 && phys as int / 4096 < self.frames@.len()
    }

    /// The tables by physical address.
    pub closed spec fn view(&self) -> Map<u64, Seq<u64>> {
        Map::new(|phys: u64| self.has(phys), |phys: u64| self.frames@[phys as int / 4096]@)
    }

    pub proof fn lemma_has(&self)
        ensures
            forall|phys: u64| #[trigger] self@.contains_key(phys) <==> self.has(phys),
            forall|phys: u64|
                self.has(phys) ==> phys as int % 4096 == 0 && (#[trigger] self@[phys]).len() == 512,
    {
    }

    /// `count` frames of zeroes.
    pub fn new(count: usize) -> (r: Self)
        requires
            count <= 0x1_0000_0000,
        ensures
            forall|phys: u64| #[trigger]
                r.has(phys) <==> phys as int % 4096 == 0 && phys as int / 4096 < count,
            forall|phys: u64| r.has(phys) ==> #[trigger] r@[phys] == Seq::new(512, |i: int| 0u64),
    {
        let mut frames: Vec<PageTable> = Vec::new();
        let mut i: usize = 0;
        while i < count
            invariant
                i <= count,
                frames@.len() == i,
                forall|j: int|
                    0 <= j < i ==> (#[trigger] frames@[j])@ == Seq::new(512, |i: int| 0u64),
            decreases count - i,
        {
            let table = PageTable { entries: [PageTableEntry(0);512] };
            assert(table@ =~= Seq::new(512, |i: int| 0u64));
            frames.push(table);
            i += 1;
        }
        PhysMemory { frames }
    }

    pub fn table(&self, phys: u64) -> (r: &PageTable)
        requires
            self.has(phys),
        ensures
            r@ == self@[phys],
    {
        let count = self.frames.len();
        assert(phys / 4096 < count);
        &self.frames[(phys / 4096) as usize]
    }

    pub fn table_mut(&mut self, phys: u64) -> (r: &mut PageTable)
        requires
            old(self).has(phys),
        ensures
            r@ == old(self)@[phys],
            final(self)@ == old(self)@.insert(phys, final(r)@),
    {
        let ghost before = *self;
        proof {
            assert forall|after: PhysMemory, t: PageTable|
                #![trigger after@, t@]
                after.frames@ == before.frames@.update(phys as int / 4096, t) implies after@
                == before@.insert(phys, t@) by {
                assert(after@ =~= before@.insert(phys, t@));
            }
        }
        let count = self.frames.len();
        assert(phys / 4096 < count);
        &mut self.frames[(phys / 4096) as usize]
    }

    /// Copies one frame over another.
    pub fn copy_frame(&mut self, from: u64, to: u64)
        requires
            old(self).has(from),
            old(self).has(to),
        ensures
            final(self)@ == old(self)@.insert(to, old(self)@[from]),
    {
        let ghost before = *self;
        let count = self.frames.len();
        assert(from / 4096 < count && to / 4096 < count);
        let table = PageTable { entries: self.frames[(from / 4096) as usize].entries };
        self.frames[(to / 4096) as usize] = table;
        assert(self@ =~= before@.insert(to, before@[from]));
    }
}

/// The tables of physical memory, by address.
pub type Tables = Map<u64, Seq<u64>>;

/// The table that stands at `level` for group `p` of pages.
pub open spec fn table_at(mem: Tables, root: u64, level: nat, p: int) -> Option<u64>
    decreases 4 - level, 0int,
{
    if level >= 3 {
        if level == 3 && p == 0 {
            Some(root)
        } else {
            None
        }
    } else {
        match slot(mem, root, level + 1, p) {
            Some(entry) => if links(entry) {
                Some(frame(entry))
            } else {
                None
            },
            None => None,
        }
    }
}

/// The entry at `level` for group `q` of pages, where all tables above exist.
pub open spec fn slot(mem: Tables, root: u64, level: nat, q: int) -> Option<u64>
    decreases 4 - level, 1int,
{
    match table_at(mem, root, level, q / 512) {
        Some(table) => Some(mem[table][q % 512]),
        None => None,
    }
}

/// The 36-bit number of the page that holds an address.
pub open spec fn page_number(addr: u64) -> int {
    (addr as int / 4096) % 0x10_0000_0000
}

/// How many base pages an entry at `level` stands for.
pub open spec fn pages_at(level: nat) -> int {
    if level == 0 {
        1
    } else if level == 1 {
        0x200
    } else if level == 2 {
        0x4_0000
    } else {
        0x800_0000
    }
}

/// The entry that page `n` comes to rest on, with its level.
pub open spec fn mapping(mem: Tables, root: u64, n: int) -> Option<(nat, u64)> {
    match (slot(mem, root, 0, n), slot(mem, root, 1, n / 0x200), slot(mem, root, 2, n / 0x4_0000)) {
        (Some(e), _, _) => if present(e) {
            Some((0, e))
        } else {
            None
        },
        (None, Some(e), _) => if present(e) {
            Some((1, e))
        } else {
            None
        },
        (None, None, Some(e)) => if present(e) {
            Some((2, e))
        } else {
            None
        },
        (None, None, None) => None,
    }
}

/// Every table is in memory, and none stands in two places.
pub open spec fn well_linked(mem: Tables, root: u64) -> bool {
    &&& forall|level: nat, p: int|
        (#[trigger] table_at(mem, root, level, p)) matches Some(t) ==> mem.contains_key(t)
            && mem[t].len() == 512
    &&& forall|l: nat, p: int, m: nat, q: int|
        (#[trigger] table_at(mem, root, l, p)) is Some && table_at(mem, root, l, p) == (
        #[trigger] table_at(mem, root, m, q)) ==> l == m && p == q
}

/// `t` is one of the tables under `root`.
pub open spec fn is_table(mem: Tables, root: u64, t: u64) -> bool {
    exists|level: nat, p: int| #[trigger] table_at(mem, root, level, p) == Some(t)
}

/// Entry `i` of table `t` holds `entry` instead.
pub open spec fn written(mem: Tables, t: u64, i: int, entry: u64) -> Tables {
    mem.insert(t, mem[t].update(i, entry))
}

/// Position `p` at `m` lies below the slot `q` at `level`.
pub open spec fn under(m: nat, p: int, level: nat, q: int) -> bool
    decreases level - m,
{
    if m >= level {
        false
    } else if m + 1 == level {
        p == q
    } else {
        under(m + 1, p / 512, level, q)
    }
}

/// Writing an entry that leads to no table changes its own slot and cuts off
/// what was below it.
pub proof fn lemma_cut(mem: Tables, root: u64, level: nat, q: int, entry: u64, m: nat, p: int)
    requires
        well_linked(mem, root),
        table_at(mem, root, level, q / 512) is Some,
        level > 0 ==> !links(entry),
    ensures
        ({
            let t = table_at(mem, root, level, q / 512)->0;
            let after = written(mem, t, q % 512, entry);
            &&& table_at(after, root, m, p) == if under(m, p, level, q) {
                None
            } else {
                table_at(mem, root, m, p)
            }
            &&& slot(after, root, m, p) == if m == level && p == q {
                Some(entry)
            } else if under(m, p / 512, level, q) {
                None
            } else {
                slot(mem, root, m, p)
            }
        }),
    decreases 4 - m,
{
    let t = table_at(mem, root, level, q / 512)->0;
    let after = written(mem, t, q % 512, entry);
    assert(mem.contains_key(t) && mem[t].len() == 512);
    if m < 3 {
        lemma_cut(mem, root, level, q, entry, m + 1, p);
        lemma_cut(mem, root, level, q, entry, m + 1, p / 512);
    }
    if let Some(u) = table_at(mem, root, m, p / 512) {
        assert(mem.contains_key(u) && mem[u].len() == 512);
        if u == t {
            assert(m == level && p / 512 == q / 512);
            if p % 512 == q % 512 {
                assert(p == q);
            }
        }
    }
}

/// What stands outside the tables does not matter to them.
proof fn lemma_outside(mem: Tables, root: u64, f: u64, content: Seq<u64>, m: nat, p: int)
    requires
        !is_table(mem, root, f),
    ensures
        table_at(mem.insert(f, content), root, m, p) == table_at(mem, root, m, p),
        slot(mem.insert(f, content), root, m, p) == slot(mem, root, m, p),
    decreases 4 - m,
{
    if m < 3 {
        lemma_outside(mem, root, f, content, m + 1, p);
        lemma_outside(mem, root, f, content, m + 1, p / 512);
    }
    if let Some(u) = table_at(mem, root, m, p / 512) {
        assert(u != f);
    }
}

/// Hanging an empty table into a slot that led nowhere.
pub proof fn lemma_link(mem: Tables, root: u64, level: nat, q: int, entry: u64, m: nat, p: int)
    requires
        well_linked(mem, root),
        0 < level <= 3,
        table_at(mem, root, level, q / 512) is Some,
        !links(slot(mem, root, level, q)->0),
        links(entry),
        !is_table(mem, root, frame(entry)),
        mem.contains_key(frame(entry)),
        mem[frame(entry)] == Seq::new(512, |i: int| 0u64),
    ensures
        ({
            let t = table_at(mem, root, level, q / 512)->0;
            let after = written(mem, t, q % 512, entry);
            &&& table_at(after, root, m, p) == if m + 1 == level && p == q {
                Some(frame(entry))
            } else {
                table_at(mem, root, m, p)
            }
            &&& slot(after, root, m, p) == if m == level && p == q {
                Some(entry)
            } else if m + 1 == level && p / 512 == q {
                Some(0u64)
            } else {
                slot(mem, root, m, p)
            }
        }),
    decreases 4 - m,
{
    let t = table_at(mem, root, level, q / 512)->0;
    let after = written(mem, t, q % 512, entry);
    assert(mem.contains_key(t) && mem[t].len() == 512);
    assert(!links(0)) by {
        assert(0u64 & 1 == 0) by (bit_vector);
    }
    if m < 3 {
        lemma_link(mem, root, level, q, entry, m + 1, p);
        lemma_link(mem, root, level, q, entry, m + 1, p / 512);
    }
    assert(table_at(mem, root, (level - 1) as nat, q) is None);
    assert(frame(entry) != t);
    if let Some(u) = table_at(mem, root, m, p / 512) {
        assert(mem.contains_key(u) && mem[u].len() == 512);
        if u == t {
            assert(m == level && p / 512 == q / 512);
            if p % 512 == q % 512 {
                assert(p == q);
            }
        }
    }
}

/// The group at `level` that page `n` belongs to.
pub open spec fn group(n: int, level: nat) -> int {
    if level >= 4 {
        0
    } else {
        n / pages_at(level)
    }
}

pub open spec fn is_page(n: int) -> bool {
    0 <= n < 0x10_0000_0000
}

pub proof fn lemma_group(n: int, level: nat)
    requires
        is_page(n),
        level <= 3,
    ensures
        group(n, level) / 512 == group(n, level + 1),
        0 <= group(n, level),
{
}

proof fn lemma_index(addr: u64, level: nat)
    requires
        level <= 3,
    ensures
        is_page(page_number(addr)),
        group(page_number(addr), level) % 512 == table_index(addr, level),
{
    assert(((addr / 4096) % 0x10_0000_0000 / 0x800_0000) % 512 == (addr / 0x80_0000_0000) % 512)
        by (bit_vector);
    assert(((addr / 4096) % 0x10_0000_0000 / 0x4_0000) % 512 == (addr / 0x4000_0000) % 512)
        by (bit_vector);
    assert(((addr / 4096) % 0x10_0000_0000 / 0x200) % 512 == (addr / 0x20_0000) % 512)
        by (bit_vector);
    assert((addr / 4096) % 0x10_0000_0000 % 512 == (addr / 0x1000) % 512) by (bit_vector);
}

/// What `lemma_cut` means for the pages: those of the group see the new entry,
/// the others see what they saw.
proof fn lemma_cut_mapping(mem: Tables, root: u64, level: nat, q: int, entry: u64)
    requires
        well_linked(mem, root),
        level <= 2,
        table_at(mem, root, level, q / 512) is Some,
        level > 0 ==> !links(entry),
    ensures
        ({
            let t = table_at(mem, root, level, q / 512)->0;
            let after = written(mem, t, q % 512, entry);
            &&& well_linked(after, root)
            &&& forall|n: int|
                is_page(n) ==> #[trigger] mapping(after, root, n) == if group(n, level) == q {
                    if present(entry) {
                        Some((level, entry))
                    } else {
                        None
                    }
                } else {
                    mapping(mem, root, n)
                }
            &&& forall|x: u64|
                #![trigger is_table(after, root, x)]
                #![trigger is_table(mem, root, x)]
                is_table(after, root, x) ==> is_table(mem, root, x)
        }),
{
    let t = table_at(mem, root, level, q / 512)->0;
    let after = written(mem, t, q % 512, entry);
    assert(mem.contains_key(t) && mem[t].len() == 512);
    assert forall|m: nat, p: int| #[trigger] table_at(after, root, m, p) == if under(
        m,
        p,
        level,
        q,
    ) {
        None
    } else {
        table_at(mem, root, m, p)
    } by {
        lemma_cut(mem, root, level, q, entry, m, p);
    }
    assert forall|n: int| is_page(n) implies #[trigger] mapping(after, root, n) == if group(
        n,
        level,
    ) == q {
        if present(entry) {
            Some((level, entry))
        } else {
            None
        }
    } else {
        mapping(mem, root, n)
    } by {
        lemma_cut(mem, root, level, q, entry, 0, n);
        lemma_cut(mem, root, level, q, entry, 1, n / 0x200);
        lemma_cut(mem, root, level, q, entry, 2, n / 0x4_0000);
        reveal_with_fuel(under, 3);
        lemma_group(n, 0);
        lemma_group(n, 1);
        lemma_group(n, 2);
        if level == 1 {
            assert(slot(mem, root, 0, n) is Some ==> table_at(mem, root, 0, n / 512) is Some);
        }
    }
    assert forall|x: u64|
        #![trigger is_table(after, root, x)]
        #![trigger is_table(mem, root, x)]
        is_table(after, root, x) implies is_table(mem, root, x) by {
        let (l, p) = choose|l: nat, p: int| #[trigger] table_at(after, root, l, p) == Some(x);
        assert(table_at(mem, root, l, p) == Some(x));
    }
}

pub proof fn lemma_outside_all(mem: Tables, root: u64, f: u64, content: Seq<u64>)
    requires
        well_linked(mem, root),
        !is_table(mem, root, f),
        content.len() == 512,
    ensures
        well_linked(mem.insert(f, content), root),
        forall|m: nat, p: int| #[trigger]
            table_at(mem.insert(f, content), root, m, p) == table_at(mem, root, m, p),
        forall|m: nat, p: int| #[trigger]
            slot(mem.insert(f, content), root, m, p) == slot(mem, root, m, p),
{
    let after = mem.insert(f, content);
    assert forall|m: nat, p: int| #[trigger]
        table_at(after, root, m, p) == table_at(mem, root, m, p) by {
        lemma_outside(mem, root, f, content, m, p);
    }
    assert forall|m: nat, p: int| #[trigger] slot(after, root, m, p) == slot(mem, root, m, p) by {
        lemma_outside(mem, root, f, content, m, p);
    }
}

proof fn lemma_link_mapping(mem: Tables, root: u64, level: nat, q: int, entry: u64)
    requires
        well_linked(mem, root),
        0 < level <= 3,
        table_at(mem, root, level, q / 512) is Some,
        !present(slot(mem, root, level, q)->0),
        links(entry),
        !is_table(mem, root, frame(entry)),
        mem.contains_key(frame(entry)),
        mem[frame(entry)] == Seq::new(512, |i: int| 0u64),
    ensures
        ({
            let t = table_at(mem, root, level, q / 512)->0;
            let after = written(mem, t, q % 512, entry);
            &&& well_linked(after, root)
            &&& forall|n: int|
                is_page(n) ==> #[trigger] mapping(after, root, n) == mapping(mem, root, n)
            &&& forall|x: u64|
                #[trigger] is_table(after, root, x) ==> is_table(mem, root, x) || x == frame(entry)
            &&& table_at(after, root, (level - 1) as nat, q) == Some(frame(entry))
            &&& forall|p: int|
                p / 512 == q ==> #[trigger] slot(after, root, (level - 1) as nat, p) == Some(0u64)
        }),
{
    let t = table_at(mem, root, level, q / 512)->0;
    let after = written(mem, t, q % 512, entry);
    assert(mem.contains_key(t) && mem[t].len() == 512);
    assert(!present(0)) by {
        assert(0u64 & 1 == 0) by (bit_vector);
    }
    assert forall|m: nat, p: int| #[trigger] table_at(after, root, m, p) == if m + 1 == level && p
        == q {
        Some(frame(entry))
    } else {
        table_at(mem, root, m, p)
    } by {
        lemma_link(mem, root, level, q, entry, m, p);
    }
    assert forall|n: int| is_page(n) implies #[trigger] mapping(after, root, n) == mapping(
        mem,
        root,
        n,
    ) by {
        lemma_link(mem, root, level, q, entry, 0, n);
        lemma_link(mem, root, level, q, entry, 1, n / 0x200);
        lemma_link(mem, root, level, q, entry, 2, n / 0x4_0000);
        lemma_group(n, 0);
        lemma_group(n, 1);
        lemma_group(n, 2);
        assert(table_at(mem, root, (level - 1) as nat, q) is None);
        reveal_with_fuel(slot, 3);
        reveal_with_fuel(table_at, 3);
    }
    assert forall|x: u64| #[trigger] is_table(after, root, x) implies is_table(mem, root, x) || x
        == frame(entry) by {
        let (l, p) = choose|l: nat, p: int| #[trigger] table_at(after, root, l, p) == Some(x);
        assert(table_at(after, root, l, p) == Some(x));
        if !(l + 1 == level && p == q) {
            assert(table_at(mem, root, l, p) == Some(x));
        }
    }
    assert forall|l: nat, p: int, m: nat, r: int|
        (#[trigger] table_at(after, root, l, p)) is Some && table_at(after, root, l, p) == (
        #[trigger] table_at(after, root, m, r)) implies l == m && p == r by {
        if l + 1 == level && p == q {
            if !(m + 1 == level && r == q) {
                assert(table_at(mem, root, m, r) == Some(frame(entry)));
            }
        } else if m + 1 == level && r == q {
            assert(table_at(mem, root, l, p) == Some(frame(entry)));
        } else {
            assert(table_at(mem, root, l, p) == table_at(mem, root, m, r));
        }
    }
    assert forall|p: int| p / 512 == q implies #[trigger] slot(after, root, (level - 1) as nat, p)
        == Some(0u64) by {
        lemma_link(mem, root, level, q, entry, (level - 1) as nat, p);
    }
}

/// The level whose entries map pages of a size.
pub open spec fn leaf_level(size: PageSize) -> nat {
    match size {
        PageSize::Size4K => 0,
        PageSize::Size2M => 1,
        PageSize::Size1G => 2,
    }
}

pub open spec fn size_at(level: nat) -> PageSize {
    if level == 0 {
        PageSize::Size4K
    } else if level == 1 {
        PageSize::Size2M
    } else {
        PageSize::Size1G
    }
}

/// The entry that maps a page of `size` to `phys`.
pub open spec fn leaf_entry(phys: u64, flags: u64, size: PageSize) -> u64 {
    if size == PageSize::Size4K {
        phys | (flags | PageFlags::PRESENT)
    } else {
        phys | ((flags | PageFlags::PRESENT) | PageFlags::HUGE_PAGE)
    }
}

/// Frames that may become tables: they are in memory, an entry can name them,
/// and none of them is a table yet.
pub open spec fn spare(mem: Tables, root: u64, frames: Set<u64>) -> bool {
    forall|f: u64| #[trigger]
        frames.contains(f) ==> mem.contains_key(f) && frame(f) == f && !is_table(mem, root, f)
}

/// A large page stands in the way of page `n` somewhere above `level`.
pub open spec fn blocked(mem: Tables, root: u64, n: int, level: nat) -> bool {
    exists|l: nat|
        level < l <= 3 && (#[trigger] slot(mem, root, l, group(n, l))) is Some && present(
            slot(mem, root, l, group(n, l))->0,
        ) && huge(slot(mem, root, l, group(n, l))->0)
}

/// How many tables have to be added at `top` and below for page `n` to have an
/// entry at `level`.
pub open spec fn missing(mem: Tables, root: u64, n: int, top: nat, level: nat) -> nat
    decreases top,
{
    if top <= level {
        0
    } else {
        let at = slot(mem, root, top, group(n, top));
        missing(mem, root, n, (top - 1) as nat, level) + if at is Some && present(at->0) {
            0nat
        } else {
            1
        }
    }
}

/// What comes of looking for the entry of page `n` at `leaf`, from `level`
/// downwards.
pub open spec fn search(mem: Tables, root: u64, n: int, level: nat, leaf: nat) -> Result<
    u64,
    PagerError,
>
    decreases level,
{
    match slot(mem, root, level, group(n, level)) {
        None => Err(PagerError::NotMapped),
        Some(entry) => if !present(entry) {
            Err(PagerError::NotMapped)
        } else if level <= leaf {
            Ok(entry)
        } else if huge(entry) {
            Err(PagerError::HugePageClash)
        } else {
            search(mem, root, n, (level - 1) as nat, leaf)
        },
    }
}

/// Where the search for a page finds nothing, nothing in its group is mapped.
pub proof fn lemma_nothing_mapped(mem: Tables, root: u64, n: int, i: int, leaf: nat)
    requires
        is_page(n),
        is_page(i),
        leaf <= 2,
        group(i, leaf) == group(n, leaf),
        search(mem, root, n, 3, leaf) == Err::<u64, PagerError>(PagerError::NotMapped),
    ensures
        mapping(mem, root, i) is None,
{
    lemma_group(n, 0);
    lemma_group(n, 1);
    lemma_group(n, 2);
    lemma_group(i, 0);
    lemma_group(i, 1);
    lemma_group(i, 2);
    assert(group(i, 3) == group(n, 3));
    assert(leaf <= 1 ==> group(i, 2) == group(n, 2));
    reveal_with_fuel(search, 5);
    reveal_with_fuel(slot, 5);
    reveal_with_fuel(table_at, 5);
}

pub proof fn lemma_entry_bits(phys: u64, flags: u64)
    ensures
        present(phys | (flags | 1)),
        present(phys | ((flags | 1) | 0x80)),
        huge(phys | ((flags | 1) | 0x80)),
        !present(0),
        frame(phys) == phys ==> links(phys | 7) && frame(phys | 7) == phys,
{
    assert((phys | (flags | 1)) & 1 != 0) by (bit_vector);
    assert((phys | ((flags | 1) | 0x80)) & 1 != 0) by (bit_vector);
    assert((phys | ((flags | 1) | 0x80)) & 0x80 != 0) by (bit_vector);
    assert(0u64 & 1 == 0) by (bit_vector);
    assert(phys & 0x000F_FFFF_FFFF_F000 == phys ==> (phys | 7) & 1 != 0 && (phys | 7) & 0x80 == 0
        && (phys | 7) & 0x000F_FFFF_FFFF_F000 == phys) by (bit_vector);
}

fn level_index(virt: VirtAddr, level: usize) -> (r: usize)
    requires
        level <= 3,
    ensures
        r == table_index(virt.0, level as nat),
        r < 512,
{
    match level {
        3 => virt.p4_index(),
        2 => virt.p3_index(),
        1 => virt.p2_index(),
        _ => virt.p1_index(),
    }
}

fn leaf_of(size: PageSize) -> (r: usize)
    ensures
        r == leaf_level(size),
        r <= 2,
{
    match size {
        PageSize::Size1G => 2,
        PageSize::Size2M => 1,
        PageSize::Size4K => 0,
    }
}

pub struct Pager {
    pml4_phys: PhysAddr,
}

impl Pager {
    pub closed spec fn root(&self) -> PhysAddr {
        self.pml4_phys
    }

    /// The tables are sound in this memory.
    pub open spec fn wf(&self, mem: Tables) -> bool {
        well_linked(mem, self.root().0)
    }

    pub fn new(pml4_phys: PhysAddr) -> (r: Self)
        ensures
            r.root() == pml4_phys,
    {
        Self { pml4_phys }
    }

    /// The page tables of a new address space: a root of its own, with nothing
    /// below the middle of the address space and what `master_pml4` has above
    /// it. There is none where no frame is left.
    pub fn for_process<A: FrameAllocator>(
        alloc: &mut A,
        memory: &mut PhysMemory,
        master_pml4: PhysAddr,
    ) -> (r: Option<Self>)
        requires
            old(alloc).ready(),
            well_linked(old(memory)@, master_pml4.0),
            spare(old(memory)@, master_pml4.0, old(alloc).available()),
        ensures
            final(alloc).ready(),
            old(alloc).drawn(final(alloc)),
            r is Some <==> old(alloc).capacity() > 0,
            match r {
                Some(pager) => {
                    let root = pager.root().0;
                    &&& old(alloc).available().contains(root)
                    &&& final(alloc).available() == old(alloc).available().remove(root)
                    &&& final(alloc).accepts(root)
                    &&& final(alloc).capacity() + 1 == old(alloc).capacity()
                    &&& final(memory)@ == old(memory)@.insert(
                        root,
                        process_root(old(memory)@[master_pml4.0]),
                    )
                    &&& pager.wf(final(memory)@)
                    &&& spare(final(memory)@, root, final(alloc).available())
                },
                None => {
                    &&& final(memory)@ == old(memory)@
                    &&& final(alloc).available() == old(alloc).available()
                    &&& final(alloc).capacity() == 0
                },
            },
    {
        let root = match alloc.allocate_frame() {
            Some(root) => root,
            None => {
                return None;
            },
        };
        let ghost mem0 = memory@;
        proof {
            memory.lemma_has();
            assert(table_at(mem0, master_pml4.0, 3, 0) == Some(master_pml4.0));
            assert(is_table(mem0, master_pml4.0, master_pml4.0));
        }
        PageTable::from_phys(memory, PhysAddr(root)).zero();
        let mut pager = Pager::new(PhysAddr(root));
        proof {
            memory.lemma_has();
            assert(memory@.contains_key(root) && memory@.contains_key(master_pml4.0));
        }
        pager.sync_kernel_mappings(memory, master_pml4);
        proof {
            assert(memory@[root] =~= process_root(mem0[master_pml4.0]));
            assert(memory@ =~= mem0.insert(root, process_root(mem0[master_pml4.0])));
            lemma_process_root(mem0, root, master_pml4.0);
            assert forall|f: u64| #[trigger] alloc.available().contains(f) implies !is_table(
                memory@,
                root,
                f,
            ) by {
                assert(old(alloc).available().contains(f));
            }
        }
        Some(pager)
    }

    pub fn pml4_phys(&self) -> (r: PhysAddr)
        ensures
            r == self.root(),
    {
        self.pml4_phys
    }

    /// Maps the page of `size` at `virt` to `phys`, adding the tables that are
    /// missing on the way.
    pub fn map_page<A: FrameAllocator>(
        &mut self,
        memory: &mut PhysMemory,
        virt: VirtAddr,
        phys: PhysAddr,
        flags: PageFlags,
        size: PageSize,
        alloc: &mut A,
    ) -> (r: Result<(), PagerError>)
        requires
            old(self).wf(old(memory)@),
            old(alloc).ready(),
            spare(old(memory)@, old(self).root().0, old(alloc).available()),
        ensures
            *final(self) == *old(self),
            final(self).wf(final(memory)@),
            final(alloc).ready(),
            spare(final(memory)@, final(self).root().0, final(alloc).available()),
            final(alloc).available().subset_of(old(alloc).available()),
            final(memory)@.dom() == old(memory)@.dom(),
            ({
                let root = old(self).root().0;
                let level = leaf_level(size);
                let n = page_number(virt.0);
                let entry = leaf_entry(phys.0, flags.0, size);
                let at = slot(old(memory)@, root, level, group(n, level));
                let clash = blocked(old(memory)@, root, n, level);
                let taken = at is Some && present(at->0);
                let lacking = missing(old(memory)@, root, n, 3, level);
                match r {
                    Ok(()) => {
                        &&& !clash && !taken
                        &&& final(alloc).capacity() + lacking == old(alloc).capacity()
                        &&& way_added(old(memory)@, final(memory)@, root, n, level)
                        &&& slot(final(memory)@, root, level, group(n, level)) == Some(entry)
                        &&& added(old(memory)@, final(memory)@, root, n, level).subset_of(
                            old(alloc).available(),
                        )
                        &&& final(alloc).available() == old(alloc).available().difference(
                            added(old(memory)@, final(memory)@, root, n, level),
                        )
                        &&& forall|i: int|
                            is_page(i) ==> #[trigger] mapping(final(memory)@, root, i) == if group(
                                i,
                                level,
                            ) == group(n, level) {
                                Some((level, entry))
                            } else {
                                mapping(old(memory)@, root, i)
                            }
                    },
                    Err(PagerError::HugePageClash) => {
                        &&& clash
                        &&& final(memory)@ == old(memory)@
                        &&& *final(alloc) == *old(alloc)
                    },
                    Err(PagerError::AlreadyMapped) => {
                        &&& !clash && taken
                        &&& final(memory)@ == old(memory)@
                        &&& *final(alloc) == *old(alloc)
                    },
                    Err(e) => {
                        &&& e == PagerError::OutOfMemory
                        &&& !clash && at is None
                        &&& old(alloc).capacity() < lacking
                        &&& final(alloc).capacity() == 0
                        &&& forall|i: int|
                            is_page(i) ==> #[trigger] mapping(final(memory)@, root, i) == mapping(
                                old(memory)@,
                                root,
                                i,
                            )
                    },
                }
            }),
            forall|t: u64|
                !is_table(old(memory)@, old(self).root().0, t) && !old(alloc).available().contains(
                    t,
                ) ==> #[trigger] final(memory)@[t] == old(memory)@[t],
            returnable(old(memory)@, old(self).root().0, *old(alloc)) ==> returnable(
                final(memory)@,
                final(self).root().0,
                *final(alloc),
            ),
    {
        let leaf = leaf_of(size);
        let ghost root = self.root().0;
        let ghost mem0 = memory@;
        let ghost n = page_number(virt.0);
        let mut table = self.pml4_phys.0;
        let mut level: usize = 3;
        let ghost mut grown = false;
        proof {
            lemma_index(virt.0, 3);
            lemma_group(n, 3);
            assert(added(mem0, mem0, root, n, 3) =~= Set::<u64>::empty());
            assert(alloc.available() =~= old(alloc).available().difference(Set::<u64>::empty()));
        }
        while level > leaf
            invariant
                leaf <= level <= 3,
                leaf == leaf_level(size),
                leaf <= 2,
                *self == *old(self),
                root == self.root().0,
                n == page_number(virt.0),
                is_page(n),
                mem0 == old(memory)@,
                well_linked(mem0, root),
                well_linked(memory@, root),
                memory@.dom() == mem0.dom(),
                table_at(memory@, root, level as nat, group(n, level as nat + 1)) == Some(table),
                alloc.ready(),
                spare(memory@, root, alloc.available()),
                alloc.available().subset_of(old(alloc).available()),
                alloc.capacity() + missing(mem0, root, n, 3, leaf as nat) == old(alloc).capacity()
                    + missing(mem0, root, n, level as nat, leaf as nat),
                spare(mem0, root, old(alloc).available()),
                forall|i: int|
                    is_page(i) ==> #[trigger] mapping(memory@, root, i) == mapping(mem0, root, i),
                forall|t: u64| #[trigger]
                    is_table(memory@, root, t) ==> is_table(mem0, root, t) || old(
                        alloc,
                    ).available().contains(t),
                forall|t: u64|
                    !is_table(mem0, root, t) && !old(alloc).available().contains(t)
                        ==> #[trigger] memory@[t] == mem0[t],
                returnable(mem0, root, *old(alloc)) ==> returnable(memory@, root, *alloc),
                !grown ==> memory@ == mem0 && *alloc == *old(alloc),
                way_added(mem0, memory@, root, n, level as nat),
                added(mem0, memory@, root, n, level as nat).subset_of(old(alloc).available()),
                alloc.available() == old(alloc).available().difference(
                    added(mem0, memory@, root, n, level as nat),
                ),
                grown ==> {
                    &&& slot(mem0, root, level as nat, group(n, level as nat)) is None
                    &&& slot(memory@, root, level as nat, group(n, level as nat)) == Some(0u64)
                },
                forall|l: nat|
                    level < l <= 3 && (#[trigger] slot(mem0, root, l, group(n, l))) is Some
                        && present(slot(mem0, root, l, group(n, l))->0) ==> !huge(
                        slot(mem0, root, l, group(n, l))->0,
                    ),
            decreases level,
        {
            let idx = level_index(virt, level);
            let ghost q = group(n, level as nat);
            let ghost before = memory@;
            proof {
                memory.lemma_has();
                lemma_index(virt.0, level as nat);
                lemma_group(n, level as nat);
                lemma_group(n, (level - 1) as nat);
                lemma_entry_bits(0, 0);
            }
            let mut entry = memory.table(table).entry(idx);
            assert(Some(entry.raw()) == slot(before, root, level as nat, q));
            if !entry.is_present() {
                let new_frame = match alloc.allocate_frame() {
                    Some(new_frame) => new_frame,
                    None => {
                        proof {
                            lemma_none_below(mem0, root, n, level as nat, leaf as nat);
                        }
                        return Err(PagerError::OutOfMemory);
                    },
                };
                proof {
                    lemma_entry_bits(new_frame, 0);
                }
                PageTable::from_phys(memory, PhysAddr(new_frame)).zero();
                let ghost zeroed = memory@;
                proof {
                    lemma_outside_all(before, root, new_frame, Seq::new(512, |i: int| 0u64));
                    lemma_same_slots(before, zeroed, root);
                    memory.lemma_has();
                    assert(table_at(zeroed, root, level as nat, q / 512) == Some(table));
                }
                assert(1u64 | 2 | 4 == 7) by (bit_vector);
                let int_flags = PageFlags(
                    PageFlags::PRESENT | PageFlags::WRITABLE | PageFlags::USER_ACCESSIBLE,
                );
                entry.set(PhysAddr(new_frame), int_flags);
                PageTable::from_phys(memory, PhysAddr(table)).set_entry(idx, entry);
                proof {
                    lemma_link_mapping(zeroed, root, level as nat, q, entry.raw());
                    lemma_none_below(mem0, root, n, level as nat, (level - 1) as nat);
                    lemma_step_added(mem0, before, root, n, level as nat, entry.raw());
                    grown = true;
                    assert(memory@ == written(zeroed, table, q % 512, entry.raw()));
                    assert forall|t: u64| #[trigger] alloc.available().contains(t) implies !is_table(
                        memory@,
                        root,
                        t,
                    ) by {
                        assert(!is_table(before, root, t));
                        assert(!is_table(zeroed, root, t));
                    }
                    assert forall|t: u64| #[trigger] is_table(memory@, root, t) implies is_table(
                        mem0,
                        root,
                        t,
                    ) || old(alloc).available().contains(t) by {
                        if t != new_frame {
                            assert(is_table(zeroed, root, t));
                            assert(is_table(before, root, t));
                        }
                    }
                    assert(is_table(before, root, table));
                    assert forall|t: u64| #[trigger] is_table(memory@, root, t) && t
                        != new_frame implies is_table(before, root, t) by {
                        assert(is_table(zeroed, root, t));
                    }
                }
            } else if entry.is_huge() {
                proof {
                    assert(slot(mem0, root, level as nat, q) == Some(entry.raw()));
                }
                return Err(PagerError::HugePageClash);
            }
            table = entry.get_frame().0;
            proof {
                if present(slot(before, root, level as nat, q)->0) {
                    assert(!grown);
                    lemma_way_there(mem0, root, n, level as nat);
                }
            }
            level -= 1;
        }
        let leaf_idx = level_index(virt, leaf);
        let ghost q = group(n, leaf as nat);
        let ghost before = memory@;
        proof {
            memory.lemma_has();
            lemma_index(virt.0, leaf as nat);
            lemma_group(n, leaf as nat);
            lemma_entry_bits(phys.0, flags.0);
            lemma_entry_bits(0, 0);
        }
        let mut leaf_entry = memory.table(table).entry(leaf_idx);
        assert(Some(leaf_entry.raw()) == slot(before, root, leaf as nat, q));
        if leaf_entry.is_present() {
            return Err(PagerError::AlreadyMapped);
        }
        let mut final_flags = flags.insert(PageFlags(PageFlags::PRESENT));
        if size != PageSize::Size4K {
            final_flags = final_flags.insert(PageFlags(PageFlags::HUGE_PAGE));
        }
        leaf_entry.set(phys, final_flags);
        PageTable::from_phys(memory, PhysAddr(table)).set_entry(leaf_idx, leaf_entry);
        proof {
            lemma_cut_mapping(before, root, leaf as nat, q, leaf_entry.raw());
            assert(memory@ == written(before, table, q % 512, leaf_entry.raw()));
            assert(is_table(before, root, table));
            lemma_leaf_added(mem0, before, root, n, leaf as nat, leaf_entry.raw());
            assert forall|t: u64| #[trigger] alloc.available().contains(t) implies !is_table(
                memory@,
                root,
                t,
            ) by {
                assert(!is_table(before, root, t));
            }
        }
        Ok(())
    }

    /// Clears the entry for `indices` at `target_level` below the table at
    /// `table_phys`, which stands at `current_level` (0 at the root), and gives
    /// back every table that this leaves empty.
    pub fn unmap_recursive<A: FrameAllocator>(
        &self,
        memory: &mut PhysMemory,
        table_phys: PhysAddr,
        indices: &[usize; 4],
        current_level: usize,
        target_level: usize,
        alloc: &mut A,
    ) -> (r: Result<(), PagerError>)
        requires
            self.wf(old(memory)@),
            current_level <= target_level <= 3,
            target_level >= 1,
            forall|i: int| 0 <= i < 4 ==> #[trigger] indices@[i] < 512,
            ({
                let level = (3 - current_level) as nat;
                table_at(
                    old(memory)@,
                    self.root().0,
                    level,
                    group(indexed_page(indices@), level + 1),
                ) == Some(table_phys.0)
            }),
            old(alloc).ready(),
            spare(old(memory)@, self.root().0, old(alloc).available()),
            returnable(old(memory)@, self.root().0, *old(alloc)),
        ensures
            self.wf(final(memory)@),
            final(alloc).ready(),
            spare(final(memory)@, self.root().0, final(alloc).available()),
            returnable(final(memory)@, self.root().0, *final(alloc)),
            final(memory)@.dom() == old(memory)@.dom(),
            ({
                let root = self.root().0;
                let level = (3 - current_level) as nat;
                let leaf = (3 - target_level) as nat;
                let n = indexed_page(indices@);
                &&& r == unmap_outcome(old(memory)@, root, n, level, leaf)
                &&& r is Err ==> final(memory)@ == old(memory)@ && *final(alloc) == *old(alloc)
                &&& r is Ok ==> way_removed(old(memory)@, final(memory)@, root, n, leaf, level)
                &&& r is Ok ==> entry_cleared(final(memory)@, root, n, level, leaf)
                &&& r is Ok ==> given_back(
                    *old(alloc),
                    *final(alloc),
                    emptied_below(old(memory)@, root, n, leaf, level),
                )
                &&& r is Ok ==> forall|i: int|
                    is_page(i) ==> #[trigger] mapping(final(memory)@, root, i) == if group(i, leaf)
                        == group(n, leaf) {
                        None
                    } else {
                        mapping(old(memory)@, root, i)
                    }
                &&& forall|m: nat, p: int|
                    m >= level ==> #[trigger] table_at(final(memory)@, root, m, p) == table_at(
                        old(memory)@,
                        root,
                        m,
                        p,
                    )
                &&& forall|m: nat, p: int|
                    m > level ==> #[trigger] slot(final(memory)@, root, m, p) == slot(
                        old(memory)@,
                        root,
                        m,
                        p,
                    )
                &&& forall|t: u64| #[trigger]
                    is_table(final(memory)@, root, t) ==> is_table(old(memory)@, root, t)
                &&& forall|t: u64|
                    !is_table(old(memory)@, root, t) ==> #[trigger] final(memory)@[t] == old(
                        memory,
                    )@[t]
            }),
        decreases target_level - current_level,
    {
        let ghost root = self.root().0;
        let ghost mem0 = memory@;
        let ghost n = indexed_page(indices@);
        let ghost level = (3 - current_level) as nat;
        let ghost q = group(n, level);
        let idx = indices[current_level];
        proof {
            memory.lemma_has();
            lemma_indexed(indices@, level);
            lemma_group(n, level);
            lemma_entry_bits(0, 0);
        }
        let entry = memory.table(table_phys.0).entry(idx);
        assert(slot(mem0, root, level, q) == Some(entry.raw()));
        if !entry.is_present() {
            return Err(PagerError::NotMapped);
        }
        if current_level == target_level {
            if entry.is_huge() != (target_level < 3) {
                return Err(PagerError::HugePageClash);
            }
            PageTable::from_phys(memory, table_phys).set_entry(idx, PageTableEntry::empty());
            proof {
                assert(memory@ == written(mem0, table_phys.0, q % 512, 0));
                lemma_cut_mapping(mem0, root, level, q, 0);
                assert forall|m: nat, p: int| m >= level implies #[trigger] table_at(
                    memory@,
                    root,
                    m,
                    p,
                ) == table_at(mem0, root, m, p) by {
                    lemma_cut(mem0, root, level, q, 0, m, p);
                }
                assert forall|m: nat, p: int| m > level implies #[trigger] slot(memory@, root, m, p)
                    == slot(mem0, root, m, p) by {
                    lemma_cut(mem0, root, level, q, 0, m, p);
                }
                assert(is_table(mem0, root, table_phys.0));
                lemma_leaf_removed(mem0, root, n, level);
                assert(alloc.available() =~= old(alloc).available().union(Set::<u64>::empty()));
            }
            return Ok(());
        }
        if entry.is_huge() {
            return Err(PagerError::HugePageClash);
        }
        let child_phys = entry.get_frame();
        let ghost below = (level - 1) as nat;
        assert(table_at(mem0, root, below, q) == Some(child_phys.0));
        match self.unmap_recursive(
            memory,
            child_phys,
            indices,
            current_level + 1,
            target_level,
            alloc,
        ) {
            Ok(()) => {},
            Err(e) => {
                return Err(e);
            },
        }
        let ghost mem1 = memory@;
        proof {
            memory.lemma_has();
            assert(table_at(mem1, root, below, q) == Some(child_phys.0));
            assert(table_at(mem1, root, level, q / 512) == Some(table_phys.0)) by {
                assert(table_at(mem1, root, level, q / 512) == table_at(
                    mem0,
                    root,
                    level,
                    q / 512,
                ));
            }
            assert(slot(mem1, root, level, q) == Some(entry.raw()));
            assert(is_table(mem0, root, table_phys.0));
            assert(is_table(mem1, root, child_phys.0));
            assert(is_table(mem0, root, child_phys.0));
            lemma_group(n, below);
            lemma_empty_table(mem0, mem1, root, n, (3 - target_level) as nat, below);
        }
        if memory.table(child_phys.0).is_empty() {
            PageTable::from_phys(memory, table_phys).set_entry(idx, PageTableEntry::empty());
            proof {
                assert(memory@ == written(mem1, table_phys.0, q % 512, 0));
                lemma_unlink(mem1, root, level, q);
                lemma_frame_of_frame(entry.raw());
                assert(table_at(memory@, root, level, q / 512) == Some(table_phys.0)) by {
                    assert(table_at(memory@, root, level, q / 512) == table_at(
                        mem1,
                        root,
                        level,
                        q / 512,
                    ));
                }
                assert(slot(memory@, root, level, q) == Some(0u64));
                lemma_unlinked(memory@, root, n, level, (3 - target_level) as nat);
                assert(child_phys.0 != root) by {
                    assert(table_at(mem1, root, 3, 0) == Some(root));
                }
            }
            alloc.deallocate_frame(child_phys.0);
        }
        proof {
            let leaf = (3 - target_level) as nat;
            lemma_step_removed(mem0, mem1, memory@, root, n, leaf, level);
            let all = emptied_below(mem0, root, n, leaf, level);
            if emptied(mem0, root, n, leaf, below) {
                assert(alloc.available() =~= old(alloc).available().union(all));
            }
        }
        Ok(())
    }

    /// Clears the page of `size` at `virt` without flushing it from the
    /// processor's cache of translations.
    pub fn unmap_page_no_flush<A: FrameAllocator>(
        &mut self,
        memory: &mut PhysMemory,
        virt: VirtAddr,
        size: PageSize,
        alloc: &mut A,
    ) -> (r: Result<(), PagerError>)
        requires
            old(self).wf(old(memory)@),
            old(memory)@.contains_key(old(self).root().0),
            old(alloc).ready(),
            spare(old(memory)@, old(self).root().0, old(alloc).available()),
            returnable(old(memory)@, old(self).root().0, *old(alloc)),
        ensures
            *final(self) == *old(self),
            final(self).wf(final(memory)@),
            final(alloc).ready(),
            spare(final(memory)@, final(self).root().0, final(alloc).available()),
            returnable(final(memory)@, final(self).root().0, *final(alloc)),
            final(memory)@.dom() == old(memory)@.dom(),
            ({
                let root = old(self).root().0;
                let leaf = leaf_level(size);
                let n = page_number(virt.0);
                &&& r == unmap_outcome(old(memory)@, root, n, 3, leaf)
                &&& r is Err ==> final(memory)@ == old(memory)@ && *final(alloc) == *old(alloc)
                &&& r is Ok ==> way_removed(old(memory)@, final(memory)@, root, n, leaf, 3)
                &&& r is Ok ==> entry_cleared(final(memory)@, root, n, 3, leaf)
                &&& r is Ok ==> given_back(
                    *old(alloc),
                    *final(alloc),
                    emptied_below(old(memory)@, root, n, leaf, 3),
                )
                &&& r is Ok ==> forall|i: int|
                    is_page(i) ==> #[trigger] mapping(final(memory)@, root, i) == if group(i, leaf)
                        == group(n, leaf) {
                        None
                    } else {
                        mapping(old(memory)@, root, i)
                    }
                &&& forall|t: u64|
                    !is_table(old(memory)@, root, t) ==> #[trigger] final(memory)@[t] == old(
                        memory,
                    )@[t]
            }),
    {
        let indices = [virt.p4_index(), virt.p3_index(), virt.p2_index(), virt.p1_index()];
        let depth: usize = match size {
            PageSize::Size1G => 1,
            PageSize::Size2M => 2,
            PageSize::Size4K => 3,
        };
        proof {
            lemma_index(virt.0, 0);
            lemma_index(virt.0, 1);
            lemma_index(virt.0, 2);
            lemma_index(virt.0, 3);
            let n = page_number(virt.0);
            lemma_group(n, 0);
            lemma_group(n, 1);
            lemma_group(n, 2);
            lemma_group(n, 3);
            assert(indexed_page(indices@) == n);
            assert(table_at(memory@, self.root().0, 3, 0) == Some(self.root().0));
        }
        self.unmap_recursive(memory, self.pml4_phys, &indices, 0, depth, alloc)
    }

    /// `unmap_page_no_flush`, with the address whose cached translation has to
    /// be flushed as the result.
    pub fn unmap_page<A: FrameAllocator>(
        &mut self,
        memory: &mut PhysMemory,
        virt: VirtAddr,
        size: PageSize,
        alloc: &mut A,
    ) -> (r: Result<VirtAddr, PagerError>)
        requires
            old(self).wf(old(memory)@),
            old(memory)@.contains_key(old(self).root().0),
            old(alloc).ready(),
            spare(old(memory)@, old(self).root().0, old(alloc).available()),
            returnable(old(memory)@, old(self).root().0, *old(alloc)),
        ensures
            *final(self) == *old(self),
            final(self).wf(final(memory)@),
            final(alloc).ready(),
            spare(final(memory)@, final(self).root().0, final(alloc).available()),
            returnable(final(memory)@, final(self).root().0, *final(alloc)),
            ({
                let root = old(self).root().0;
                let leaf = leaf_level(size);
                let n = page_number(virt.0);
                match unmap_outcome(old(memory)@, root, n, 3, leaf) {
                    Err(e) => {
                        &&& r == Err::<VirtAddr, PagerError>(e)
                        &&& final(memory)@ == old(memory)@
                        &&& *final(alloc) == *old(alloc)
                    },
                    Ok(()) => {
                        &&& r == Ok::<VirtAddr, PagerError>(virt)
                        &&& way_removed(old(memory)@, final(memory)@, root, n, leaf, 3)
                        &&& entry_cleared(final(memory)@, root, n, 3, leaf)
                        &&& given_back(
                            *old(alloc),
                            *final(alloc),
                            emptied_below(old(memory)@, root, n, leaf, 3),
                        )
                        &&& forall|i: int|
                            is_page(i) ==> #[trigger] mapping(final(memory)@, root, i) == if group(
                                i,
                                leaf,
                            ) == group(n, leaf) {
                                None
                            } else {
                                mapping(old(memory)@, root, i)
                            }
                    },
                }
            }),
            final(memory)@.dom() == old(memory)@.dom(),
            forall|t: u64|
                !is_table(old(memory)@, old(self).root().0, t) ==> #[trigger] final(memory)@[t]
                    == old(memory)@[t],
    {
        match self.unmap_page_no_flush(memory, virt, size, alloc) {
            Ok(()) => Ok(virt),
            Err(e) => Err(e),
        }
    }

    /// Gives the page of `size` at `virt` other flags, with its frame kept.
    pub fn change_flags_no_flush(
        &mut self,
        memory: &mut PhysMemory,
        virt: VirtAddr,
        flags: PageFlags,
        size: PageSize,
    ) -> (r: Result<(), PagerError>)
        requires
            old(self).wf(old(memory)@),
        ensures
            *final(self) == *old(self),
            final(self).wf(final(memory)@),
            final(memory)@.dom() == old(memory)@.dom(),
            ({
                let root = old(self).root().0;
                let leaf = leaf_level(size);
                let n = page_number(virt.0);
                match search(old(memory)@, root, n, 3, leaf) {
                    Err(_) => r == Err::<(), PagerError>(PagerError::NotMapped) && final(memory)@
                        == old(memory)@,
                    Ok(entry) => {
                        &&& r == Ok::<(), PagerError>(())
                        &&& forall|i: int|
                            is_page(i) ==> #[trigger] mapping(final(memory)@, root, i) == if group(
                                i,
                                leaf,
                            ) == group(n, leaf) {
                                Some((leaf, leaf_entry(frame(entry), flags.0, size)))
                            } else {
                                mapping(old(memory)@, root, i)
                            }
                    },
                }
            }),
            forall|t: u64|
                !is_table(old(memory)@, old(self).root().0, t) ==> #[trigger] final(memory)@[t]
                    == old(memory)@[t],
            forall|t: u64| #[trigger]
                is_table(final(memory)@, old(self).root().0, t) ==> is_table(
                    old(memory)@,
                    old(self).root().0,
                    t,
                ),
    {
        let leaf = leaf_of(size);
        let ghost root = self.root().0;
        let ghost mem0 = memory@;
        let ghost n = page_number(virt.0);
        let mut table = self.pml4_phys.0;
        let mut level: usize = 3;
        proof {
            lemma_index(virt.0, 3);
        }
        while level > leaf
            invariant
                leaf <= level <= 3,
                leaf == leaf_level(size),
                leaf <= 2,
                *self == *old(self),
                root == self.root().0,
                n == page_number(virt.0),
                is_page(n),
                memory@ == mem0,
                mem0 == old(memory)@,
                well_linked(mem0, root),
                table_at(mem0, root, level as nat, group(n, level as nat + 1)) == Some(table),
                search(mem0, root, n, 3, leaf as nat) == search(
                    mem0,
                    root,
                    n,
                    level as nat,
                    leaf as nat,
                ),
            decreases level,
        {
            let idx = level_index(virt, level);
            proof {
                memory.lemma_has();
                lemma_index(virt.0, level as nat);
                lemma_group(n, level as nat);
            }
            let entry = memory.table(table).entry(idx);
            assert(slot(mem0, root, level as nat, group(n, level as nat)) == Some(entry.raw()));
            if !entry.is_present() || entry.is_huge() {
                return Err(PagerError::NotMapped);
            }
            table = entry.get_frame().0;
            level -= 1;
        }
        let leaf_idx = level_index(virt, leaf);
        let ghost q = group(n, leaf as nat);
        proof {
            memory.lemma_has();
            lemma_index(virt.0, leaf as nat);
            lemma_group(n, leaf as nat);
        }
        let mut leaf_entry = memory.table(table).entry(leaf_idx);
        assert(slot(mem0, root, leaf as nat, q) == Some(leaf_entry.raw()));
        if !leaf_entry.is_present() {
            return Err(PagerError::NotMapped);
        }
        let mut final_flags = flags.insert(PageFlags(PageFlags::PRESENT));
        if size != PageSize::Size4K {
            final_flags = final_flags.insert(PageFlags(PageFlags::HUGE_PAGE));
        }
        let phys = leaf_entry.get_frame();
        leaf_entry.set(phys, final_flags);
        PageTable::from_phys(memory, PhysAddr(table)).set_entry(leaf_idx, leaf_entry);
        proof {
            lemma_entry_bits(phys.0, flags.0);
            lemma_cut_mapping(mem0, root, leaf as nat, q, leaf_entry.raw());
            assert(memory@ == written(mem0, table, q % 512, leaf_entry.raw()));
            assert(is_table(mem0, root, table));
        }
        Ok(())
    }

    /// `change_flags_no_flush`, with the address whose cached translation has
    /// to be flushed as the result.
    pub fn change_flags(
        &mut self,
        memory: &mut PhysMemory,
        virt: VirtAddr,
        flags: PageFlags,
        size: PageSize,
    ) -> (r: Result<VirtAddr, PagerError>)
        requires
            old(self).wf(old(memory)@),
        ensures
            *final(self) == *old(self),
            final(self).wf(final(memory)@),
            ({
                let root = old(self).root().0;
                let leaf = leaf_level(size);
                let n = page_number(virt.0);
                match search(old(memory)@, root, n, 3, leaf) {
                    Err(_) => r == Err::<VirtAddr, PagerError>(PagerError::NotMapped) && final(
                        memory)@ == old(memory)@,
                    Ok(entry) => {
                        &&& r == Ok::<VirtAddr, PagerError>(virt)
                        &&& forall|i: int|
                            is_page(i) ==> #[trigger] mapping(final(memory)@, root, i) == if group(
                                i,
                                leaf,
                            ) == group(n, leaf) {
                                Some((leaf, leaf_entry(frame(entry), flags.0, size)))
                            } else {
                                mapping(old(memory)@, root, i)
                            }
                    },
                }
            }),
            final(memory)@.dom() == old(memory)@.dom(),
            forall|t: u64|
                !is_table(old(memory)@, old(self).root().0, t) ==> #[trigger] final(memory)@[t]
                    == old(memory)@[t],
            forall|t: u64| #[trigger]
                is_table(final(memory)@, old(self).root().0, t) ==> is_table(
                    old(memory)@,
                    old(self).root().0,
                    t,
                ),
    {
        match self.change_flags_no_flush(memory, virt, flags, size) {
            Ok(()) => Ok(virt),
            Err(e) => Err(e),
        }
    }

    /// Takes the upper half of the address space over from another root.
    pub fn sync_kernel_mappings(&mut self, memory: &mut PhysMemory, master_pml4: PhysAddr)
        requires
            old(memory).has(old(self).root().0),
            old(memory).has(master_pml4.0),
        ensures
            *final(self) == *old(self),
            final(memory)@ == synced(old(memory)@, old(self).root().0, master_pml4.0),
    {
        let ghost mem0 = memory@;
        let ghost root = self.root().0;
        proof {
            memory.lemma_has();
            assert(mem0[root].update(0, mem0[root][0]) =~= mem0[root]);
        }
        let master = *memory.table(master_pml4.0);
        let current = PageTable::from_phys(memory, self.pml4_phys);
        let mut i: usize = 256;
        while i < 512
            invariant
                256 <= i <= 512,
                master@ == mem0[master_pml4.0],
                mem0[root].len() == 512,
                current@.len() == 512,
                forall|j: int|
                    0 <= j < 512 ==> #[trigger] current@[j] == if 256 <= j < i {
                        master@[j]
                    } else {
                        mem0[root][j]
                    },
            decreases 512 - i,
        {
            current.set_entry(i, master.entry(i));
            i += 1;
        }
        proof {
            assert(current@ =~= Seq::new(
                512,
                |j: int|
                    if j >= 256 {
                        mem0[master_pml4.0][j]
                    } else {
                        mem0[root][j]
                    },
            ));
        }
    }

    /// Where `virt` leads: the physical address, the size of the page and its
    /// flags.
    pub fn translate(&self, memory: &PhysMemory, virt: VirtAddr) -> (r: Option<
        (PhysAddr, PageSize, PageFlags),
    >)
        requires
            self.wf(memory@),
        ensures
            r == translation(memory@, self.root().0, virt.0),
    {
        let ghost root = self.root().0;
        let ghost mem = memory@;
        let ghost n = page_number(virt.0);
        let mut table_phys = self.pml4_phys.0;
        let mut level: usize = 3;
        proof {
            lemma_index(virt.0, 3);
            memory.lemma_has();
        }
        loop
            invariant
                level <= 3,
                root == self.root().0,
                n == page_number(virt.0),
                is_page(n),
                mem == memory@,
                well_linked(mem, root),
                forall|phys: u64| #[trigger] mem.contains_key(phys) <==> memory.has(phys),
                table_at(mem, root, level as nat, group(n, level as nat + 1)) == Some(table_phys),
            decreases level,
        {
            let idx = level_index(virt, level);
            proof {
                lemma_index(virt.0, level as nat);
                lemma_group(n, level as nat);
            }
            let entry = memory.table(table_phys).entry(idx);
            assert(slot(mem, root, level as nat, group(n, level as nat)) == Some(entry.raw()));
            if !entry.is_present() {
                proof {
                    if level > 0 {
                        lemma_none_below(mem, root, n, level as nat, 0);
                    }
                }
                return None;
            }
            if entry.is_huge() || level == 0 {
                proof {
                    if level > 0 {
                        lemma_no_link_below(mem, root, n, level as nat);
                    }
                }
                let page_size = match level {
                    2 => PageSize::Size1G,
                    1 => PageSize::Size2M,
                    0 => PageSize::Size4K,
                    _ => {
                        return None;
                    },
                };
                let frame_base = entry.get_frame().0;
                proof {
                    crate::memory::align::lemma_page_sizes();
                    crate::memory::align::lemma_mask(virt.0, page_size.bytes());
                    let e = entry.raw();
                    assert(e & 0x000F_FFFF_FFFF_F000 <= 0x000F_FFFF_FFFF_F000) by (bit_vector);
                }
                let offset = virt.0 & (page_size.bytes() - 1);
                return Some((PhysAddr(frame_base + offset), page_size, entry.flags()));
            }
            table_phys = entry.get_frame().0;
            level -= 1;
        }
    }
}

/// Where an address leads, by the entry its page rests on.
pub open spec fn translation(mem: Tables, root: u64, virt: u64) -> Option<
    (PhysAddr, PageSize, PageFlags),
> {
    match mapping(mem, root, page_number(virt)) {
        Some((level, entry)) => Some(
            (
                PhysAddr((frame(entry) + virt % size_at(level).bytes()) as u64),
                size_at(level),
                PageFlags(entry & 0xFFF0_0000_0000_0FFF),
            ),
        ),
        None => None,
    }
}

/// The memory once the upper half of `root` is that of `master`.
pub open spec fn synced(mem: Tables, root: u64, master: u64) -> Tables {
    mem.insert(
        root,
        Seq::new(
            512,
            |j: int|
                if j >= 256 {
                    mem[master][j]
                } else {
                    mem[root][j]
                },
        ),
    )
}

/// The page that four table indices lead to, from the root down.
pub open spec fn indexed_page(indices: Seq<usize>) -> int {
    ((indices[0] * 512 + indices[1]) * 512 + indices[2]) * 512 + indices[3]
}

/// Every table but the root would be taken back by the allocator.
pub open spec fn returnable<A: FrameAllocator>(mem: Tables, root: u64, alloc: A) -> bool {
    forall|t: u64| #[trigger] is_table(mem, root, t) && t != root ==> alloc.accepts(t)
}

/// The allocator has got these frames back, each once, and no other.
pub open spec fn given_back<A: FrameAllocator>(before: A, after: A, frames: Set<u64>) -> bool {
    &&& frames.finite()
    &&& after.available() == before.available().union(frames)
    &&& after.capacity() == before.capacity() + frames.len()
}

/// What comes of unmapping page `n` at `leaf`.
pub open spec fn unmap_outcome(mem: Tables, root: u64, n: int, level: nat, leaf: nat) -> Result<
    (),
    PagerError,
> {
    match search(mem, root, n, level, leaf) {
        Err(e) => Err(e),
        Ok(entry) => if huge(entry) != (leaf > 0) {
            Err(PagerError::HugePageClash)
        } else {
            Ok(())
        },
    }
}

/// The entry of page `n` at `leaf` is empty, or its table is gone: from `level`
/// downwards the page is not found.
pub open spec fn entry_cleared(mem: Tables, root: u64, n: int, level: nat, leaf: nat) -> bool {
    &&& slot(mem, root, leaf, group(n, leaf)) matches Some(entry) ==> entry == 0
    &&& unmap_outcome(mem, root, n, level, leaf) == Err::<(), PagerError>(PagerError::NotMapped)
}

/// Below an empty entry no page is found.
proof fn lemma_unlinked(mem: Tables, root: u64, n: int, level: nat, leaf: nat)
    requires
        slot(mem, root, level, group(n, level)) == Some(0u64),
        is_page(n),
        leaf < level <= 3,
    ensures
        entry_cleared(mem, root, n, level, leaf),
{
    lemma_entry_bits(0, 0);
    lemma_none_below(mem, root, n, level, leaf);
}

proof fn lemma_indexed(indices: Seq<usize>, level: nat)
    requires
        indices.len() == 4,
        level <= 3,
        forall|i: int| 0 <= i < 4 ==> #[trigger] indices[i] < 512,
    ensures
        is_page(indexed_page(indices)),
        group(indexed_page(indices), level) % 512 == indices[3 - level],
{
    assert(indices[0] < 512 && indices[1] < 512 && indices[2] < 512 && indices[3] < 512);
}

proof fn lemma_frame_of_frame(entry: u64)
    ensures
        frame(frame(entry)) == frame(entry),
{
    assert((entry & 0x000F_FFFF_FFFF_F000) & 0x000F_FFFF_FFFF_F000 == entry
        & 0x000F_FFFF_FFFF_F000) by (bit_vector);
}

/// Taking an empty table out of its slot changes no page.
proof fn lemma_unlink(mem: Tables, root: u64, level: nat, q: int)
    requires
        well_linked(mem, root),
        0 < level <= 3,
        table_at(mem, root, level, q / 512) is Some,
        links(slot(mem, root, level, q)->0),
        forall|i: int|
            0 <= i < 512 ==> !present(
                #[trigger] mem[table_at(mem, root, (level - 1) as nat, q)->0][i],
            ),
    ensures
        ({
            let t = table_at(mem, root, level, q / 512)->0;
            let child = table_at(mem, root, (level - 1) as nat, q)->0;
            let after = written(mem, t, q % 512, 0);
            &&& well_linked(after, root)
            &&& !is_table(after, root, child)
            &&& forall|n: int|
                is_page(n) ==> #[trigger] mapping(after, root, n) == mapping(mem, root, n)
            &&& forall|x: u64| #[trigger] is_table(after, root, x) ==> is_table(mem, root, x)
            &&& forall|m: nat, p: int|
                m >= level ==> #[trigger] table_at(after, root, m, p) == table_at(mem, root, m, p)
            &&& forall|m: nat, p: int|
                m > level ==> #[trigger] slot(after, root, m, p) == slot(mem, root, m, p)
        }),
{
    let t = table_at(mem, root, level, q / 512)->0;
    let below = (level - 1) as nat;
    let child = table_at(mem, root, below, q)->0;
    let after = written(mem, t, q % 512, 0);
    assert(mem.contains_key(t) && mem[t].len() == 512);
    lemma_entry_bits(0, 0);
    assert forall|m: nat, p: int| #[trigger] table_at(after, root, m, p) == if under(
        m,
        p,
        level,
        q,
    ) {
        None
    } else {
        table_at(mem, root, m, p)
    } by {
        lemma_cut(mem, root, level, q, 0, m, p);
    }
    assert forall|m: nat, p: int| m > level implies #[trigger] slot(after, root, m, p) == slot(
        mem,
        root,
        m,
        p,
    ) by {
        lemma_cut(mem, root, level, q, 0, m, p);
    }
    assert forall|n: int| is_page(n) implies #[trigger] mapping(after, root, n) == mapping(
        mem,
        root,
        n,
    ) by {
        lemma_cut(mem, root, level, q, 0, 0, n);
        lemma_cut(mem, root, level, q, 0, 1, n / 0x200);
        lemma_cut(mem, root, level, q, 0, 2, n / 0x4_0000);
        reveal_with_fuel(under, 4);
        lemma_group(n, 0);
        lemma_group(n, 1);
        lemma_group(n, 2);
        if group(n, level) == q {
            let g = group(n, below);
            assert(g / 512 == q);
            assert(slot(mem, root, below, g) == Some(mem[child][g % 512]));
            if below > 0 {
                lemma_none_below(mem, root, n, below, 0);
            }
        }
    }
    assert forall|x: u64| #[trigger] is_table(after, root, x) implies is_table(mem, root, x) by {
        let (l, p) = choose|l: nat, p: int| #[trigger] table_at(after, root, l, p) == Some(x);
        assert(table_at(mem, root, l, p) == Some(x));
    }
    assert(!is_table(after, root, child)) by {
        if is_table(after, root, child) {
            let (l, p) = choose|l: nat, p: int|
                #[trigger] table_at(after, root, l, p) == Some(child);
            assert(table_at(mem, root, l, p) == Some(child));
            assert(table_at(mem, root, below, q) == Some(child));
        }
    }
}

proof fn lemma_no_link_below(mem: Tables, root: u64, n: int, level: nat)
    requires
        is_page(n),
        0 < level <= 3,
        slot(mem, root, level, group(n, level)) matches Some(e) ==> !links(e),
    ensures
        forall|l: nat| l < level ==> (#[trigger] slot(mem, root, l, group(n, l))) is None,
    decreases level,
{
    let below = (level - 1) as nat;
    lemma_group(n, below);
    assert(table_at(mem, root, below, group(n, level)) is None);
    assert(slot(mem, root, below, group(n, below)) is None);
    if 0 < below {
        lemma_no_link_below(mem, root, n, below);
    }
}

/// Where the way to page `n` ends above `leaf`, there is no entry for it there.
proof fn lemma_none_below(mem: Tables, root: u64, n: int, level: nat, leaf: nat)
    requires
        is_page(n),
        leaf < level <= 3,
        slot(mem, root, level, group(n, level)) matches Some(e) ==> !present(e),
    ensures
        forall|l: nat|
            leaf <= l < level ==> (#[trigger] slot(mem, root, l, group(n, l))) is None,
    decreases level,
{
    let below = (level - 1) as nat;
    lemma_group(n, below);
    assert(table_at(mem, root, below, group(n, level)) is None);
    assert(slot(mem, root, below, group(n, below)) is None);
    if leaf < below {
        lemma_none_below(mem, root, n, below, leaf);
    }
}

proof fn lemma_same_slots(mem: Tables, after: Tables, root: u64)
    requires
        forall|m: nat, p: int| #[trigger]
            table_at(after, root, m, p) == table_at(mem, root, m, p),
        forall|m: nat, p: int| #[trigger] slot(after, root, m, p) == slot(mem, root, m, p),
    ensures
        forall|n: int| #[trigger] mapping(after, root, n) == mapping(mem, root, n),
        forall|t: u64| #[trigger] is_table(after, root, t) == is_table(mem, root, t),
{
    assert forall|t: u64| #[trigger] is_table(after, root, t) == is_table(mem, root, t) by {
        if is_table(after, root, t) {
            let (l, p) = choose|l: nat, p: int| #[trigger] table_at(after, root, l, p) == Some(t);
            assert(table_at(mem, root, l, p) == Some(t));
        }
        if is_table(mem, root, t) {
            let (l, p) = choose|l: nat, p: int| #[trigger] table_at(mem, root, l, p) == Some(t);
            assert(table_at(after, root, l, p) == Some(t));
        }
    }
}

/// Every address of a page that has been mapped is translated to the same
/// offset in its frame, with the flags it was mapped with.
pub proof fn law_mapped_page_translates(
    mem: Tables,
    root: u64,
    virt: u64,
    phys: u64,
    flags: u64,
    size: PageSize,
)
    requires
        frame(phys) == phys,
        flags & 0x000F_FFFF_FFFF_F000 == 0,
        mapping(mem, root, page_number(virt)) == Some(
            (leaf_level(size), leaf_entry(phys, flags, size)),
        ),
    ensures
        translation(mem, root, virt) == Some(
            (
                PhysAddr((phys + virt % size.bytes()) as u64),
                size,
                PageFlags(
                    if size == PageSize::Size4K {
                        flags | PageFlags::PRESENT
                    } else {
                        (flags | PageFlags::PRESENT) | PageFlags::HUGE_PAGE
                    },
                ),
            ),
        ),
{
    assert(phys & 0x000F_FFFF_FFFF_F000 == phys && flags & 0x000F_FFFF_FFFF_F000 == 0 ==> (phys | (
    flags | 1)) & 0x000F_FFFF_FFFF_F000 == phys && (phys | (flags | 1)) & 0xFFF0_0000_0000_0FFF == (
    flags | 1)) by (bit_vector);
    assert(phys & 0x000F_FFFF_FFFF_F000 == phys && flags & 0x000F_FFFF_FFFF_F000 == 0 ==> (phys | ((
    flags | 1) | 0x80)) & 0x000F_FFFF_FFFF_F000 == phys && (phys | ((flags | 1) | 0x80))
        & 0xFFF0_0000_0000_0FFF == ((flags | 1) | 0x80)) by (bit_vector);
}

/// Where a page can be mapped, none of its addresses led anywhere before, so
/// unmapping it again restores what every address sees.
pub proof fn law_mappable_is_unmapped(mem: Tables, root: u64, n: int, level: nat, i: int)
    requires
        is_page(n),
        is_page(i),
        level <= 2,
        group(i, level) == group(n, level),
        !blocked(mem, root, n, level),
        slot(mem, root, level, group(n, level)) matches Some(e) ==> !present(e),
    ensures
        mapping(mem, root, i) is None,
{
    lemma_group(n, 0);
    lemma_group(n, 1);
    lemma_group(n, 2);
    lemma_group(n, 3);
    lemma_group(i, 0);
    lemma_group(i, 1);
    lemma_group(i, 2);
    lemma_group(i, 3);
    lemma_way_down(mem, root, n, level, 3);
    assert(group(i, level + 1) == group(n, level + 1));
    if slot(mem, root, level, group(n, level)) is Some {
        if level > 0 {
            lemma_none_below(mem, root, i, level, 0);
        }
    } else {
        assert(slot(mem, root, level, group(i, level)) is None);
        if level > 0 {
            lemma_none_below(mem, root, i, level, 0);
        }
    }
    if level == 1 {
        assert(slot(mem, root, 0, i) is None);
    }
    if level == 2 {
        assert(slot(mem, root, 0, group(i, 0)) is None);
        assert(slot(mem, root, 1, group(i, 1)) is None);
    }
    if level == 0 {
        assert(i == n);
    }
    assert(slot(mem, root, 1, group(i, 1)) matches Some(e) ==> level >= 1 || !present(e) || links(
        e,
    ));
    assert(slot(mem, root, 2, group(i, 2)) matches Some(e) ==> level >= 2 || !present(e) || links(
        e,
    ));
}

/// Above the level of an unblocked page every entry on its way is absent or
/// leads on.
proof fn lemma_way_down(mem: Tables, root: u64, n: int, level: nat, l: nat)
    requires
        !blocked(mem, root, n, level),
        level < l <= 3,
    ensures
        forall|k: nat|
            level < k <= l ==> ((#[trigger] slot(mem, root, k, group(n, k))) matches Some(e)
                ==> !present(e) || links(e)),
{
}

/// The root table of a new process: nothing in the lower half, and the upper
/// half of `master`.
pub open spec fn process_root(master: Seq<u64>) -> Seq<u64> {
    Seq::new(
        512,
        |j: int|
            if j >= 256 {
                master[j]
            } else {
                0
            },
    )
}

/// The tables of a new process are its root, and tables of the kernel.
proof fn lemma_process_table(mem: Tables, root: u64, master: u64, level: nat, p: int)
    requires
        well_linked(mem, master),
        !is_table(mem, master, root),
    ensures
        ({
            let after = mem.insert(root, process_root(mem[master]));
            level < 3 && table_at(after, root, level, p) is Some ==> table_at(after, root, level, p)
                == table_at(mem, master, level, p)
        }),
    decreases 3 - level,
{
    let after = mem.insert(root, process_root(mem[master]));
    lemma_entry_bits(0, 0);
    if level == 2 {
        assert(slot(after, root, 3, p) == if p / 512 == 0 {
            Some(after[root][p % 512])
        } else {
            None
        });
        assert(slot(mem, master, 3, p) == if p / 512 == 0 {
            Some(mem[master][p % 512])
        } else {
            None
        });
    } else if level < 2 {
        lemma_process_table(mem, root, master, level + 1, p / 512);
        if let Some(t) = table_at(after, root, level + 1, p / 512) {
            assert(table_at(mem, master, level + 1, p / 512) == Some(t));
            assert(t != root);
        }
    }
}

/// The tables of a new process are sound, and all but its root are tables of
/// the kernel.
proof fn lemma_process_root(mem: Tables, root: u64, master: u64)
    requires
        mem.contains_key(root),
        well_linked(mem, master),
        !is_table(mem, master, root),
    ensures
        well_linked(mem.insert(root, process_root(mem[master])), root),
        forall|t: u64| #[trigger]
            is_table(mem.insert(root, process_root(mem[master])), root, t) ==> t == root
                || is_table(mem, master, t),
{
    let after = mem.insert(root, process_root(mem[master]));
    assert forall|level: nat, p: int| (#[trigger] table_at(after, root, level, p)) is Some implies {
        let t = table_at(after, root, level, p)->0;
        &&& after.contains_key(t) && after[t].len() == 512
        &&& level < 3 ==> t != root && table_at(mem, master, level, p) == Some(t)
    } by {
        lemma_process_table(mem, root, master, level, p);
        if level < 3 {
            assert(table_at(mem, master, level, p) is Some);
        }
    }
    assert forall|l: nat, p: int, m: nat, q: int|
        (#[trigger] table_at(after, root, l, p)) is Some && table_at(after, root, l, p) == (
        #[trigger] table_at(after, root, m, q)) implies l == m && p == q by {
        if l < 3 && m < 3 {
            assert(table_at(mem, master, l, p) == table_at(mem, master, m, q));
        }
    }
}

/// A new address space leads where the kernel's does in its upper half, and
/// nowhere in its lower half.
pub proof fn law_new_address_space_has_the_kernel(mem: Tables, root: u64, master: u64, n: int)
    requires
        is_page(n),
        mem.contains_key(root),
        well_linked(mem, master),
        !is_table(mem, master, root),
    ensures
        mapping(mem.insert(root, process_root(mem[master])), root, n) == if n >= 0x8_0000_0000 {
            mapping(mem, master, n)
        } else {
            None
        },
{
    let cleared = mem.insert(root, Seq::new(512, |i: int| 0u64));
    assert(table_at(mem, master, 3, 0) == Some(master));
    assert(is_table(mem, master, master));
    lemma_outside_all(mem, master, root, Seq::new(512, |i: int| 0u64));
    assert(!is_table(cleared, master, root)) by {
        if is_table(cleared, master, root) {
            let (l, p) = choose|l: nat, p: int| #[trigger]
                table_at(cleared, master, l, p) == Some(root);
            assert(table_at(mem, master, l, p) == Some(root));
        }
    }
    lemma_cleared_root(cleared, root);
    assert(synced(cleared, root, master)[root] =~= process_root(mem[master]));
    assert(mem.insert(root, process_root(mem[master])) =~= synced(cleared, root, master));
    law_sync_shares_the_upper_half(cleared, root, master, n);
}

proof fn lemma_cleared_root(mem: Tables, root: u64)
    requires
        mem.contains_key(root),
        mem[root] == Seq::new(512, |i: int| 0u64),
    ensures
        well_linked(mem, root),
        forall|n: int| is_page(n) ==> (#[trigger] mapping(mem, root, n)) is None,
{
    lemma_entry_bits(0, 0);
    assert forall|level: nat, p: int| level < 3 implies (#[trigger] table_at(
        mem,
        root,
        level,
        p,
    )) is None by {
        lemma_no_table(mem, root, level, p);
    }
    assert forall|n: int| is_page(n) implies (#[trigger] mapping(mem, root, n)) is None by {
        lemma_group(n, 0);
        lemma_group(n, 1);
        lemma_group(n, 2);
        lemma_group(n, 3);
        assert(table_at(mem, root, 2, group(n, 3)) is None);
        assert(table_at(mem, root, 1, group(n, 2)) is None);
        assert(table_at(mem, root, 0, group(n, 1)) is None);
    }
}

proof fn lemma_no_table(mem: Tables, root: u64, level: nat, p: int)
    requires
        level < 3,
        mem[root] == Seq::new(512, |i: int| 0u64),
    ensures
        table_at(mem, root, level, p) is None,
    decreases 3 - level,
{
    lemma_entry_bits(0, 0);
    if level < 2 {
        lemma_no_table(mem, root, level + 1, p / 512);
        assert(slot(mem, root, level + 1, p) is None);
    } else {
        assert(slot(mem, root, 3, p) == if p / 512 == 0 {
            Some(mem[root][p % 512])
        } else {
            None
        });
    }
}

/// After a sync the upper half of the address space leads where the other
/// root's does, and the lower half where it led before.
pub proof fn law_sync_shares_the_upper_half(mem: Tables, root: u64, master: u64, n: int)
    requires
        is_page(n),
        well_linked(mem, root),
        well_linked(mem, master),
        !is_table(mem, master, root),
        mem.contains_key(root),
        mem[root].len() == 512,
    ensures
        n >= 0x8_0000_0000 ==> mapping(synced(mem, root, master), root, n) == mapping(
            mem,
            master,
            n,
        ),
        n < 0x8_0000_0000 ==> mapping(synced(mem, root, master), root, n) == mapping(mem, root, n),
{
    let after = synced(mem, root, master);
    let from = if n >= 0x8_0000_0000 {
        master
    } else {
        root
    };
    lemma_group(n, 0);
    lemma_group(n, 1);
    lemma_group(n, 2);
    lemma_group(n, 3);
    lemma_synced(mem, root, master, from, n, 2);
    lemma_synced(mem, root, master, from, n, 1);
    lemma_synced(mem, root, master, from, n, 0);
}

proof fn lemma_synced(mem: Tables, root: u64, master: u64, from: u64, n: int, level: nat)
    requires
        is_page(n),
        well_linked(mem, root),
        well_linked(mem, master),
        !is_table(mem, master, root),
        mem.contains_key(root),
        mem[root].len() == 512,
        level <= 2,
        from == if n >= 0x8_0000_0000 {
            master
        } else {
            root
        },
    ensures
        slot(synced(mem, root, master), root, level, group(n, level)) == slot(
            mem,
            from,
            level,
            group(n, level),
        ),
    decreases 3 - level,
{
    let after = synced(mem, root, master);
    lemma_group(n, level);
    lemma_group(n, level + 1);
    if level == 2 {
        assert(table_at(after, root, 3, 0) == Some(root));
        assert(table_at(mem, from, 3, 0) == Some(from));
        assert(slot(after, root, 3, group(n, 3)) == Some(after[root][group(n, 3) % 512]));
        assert(slot(mem, from, 3, group(n, 3)) == Some(mem[from][group(n, 3) % 512]));
    } else {
        lemma_synced(mem, root, master, from, n, level + 1);
    }
    assert(table_at(after, root, level, group(n, level + 1)) == table_at(
        mem,
        from,
        level,
        group(n, level + 1),
    ));
    if let Some(t) = table_at(mem, from, level, group(n, level + 1)) {
        if t == root {
            if from == master {
                assert(is_table(mem, master, root));
            } else {
                assert(table_at(mem, root, 3, 0) == Some(root));
            }
        }
    }
}

} // verus!
