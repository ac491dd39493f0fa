//! Where the registers of a device are, as its capabilities tell.

use crate::common::bytes::{le16, le32, le64};
use crate::drivers::pci::config::{
    cap_id, cap_next, first_cap, pages_around, word_of, PCIDevice, CAPABILITY_LIMIT,
};
use crate::drivers::pci::laws::{byte_at, lemma_place, place_of};
use crate::drivers::virtio::blk::{all_writes, feature, queue_count, QueueWrite};
use crate::drivers::virtio::mmio::{
    cap_len, cap_start, capabilities, capability_at, common_cfg_of, complete, register_pages,
    registers, VirtioBlockDriver, VirtioCapability,
};
use vstd::prelude::*;

verus! {

/// A capability of type `t` that leads to memory: the memory that it names is
/// there, and is one of the six that a function has.
pub open spec fn leads(cap: VirtioCapability, bars: Seq<Option<u64>>, t: int) -> bool {
    &&& cap.cfg_type == t
    &&& cap.bar_idx < 6
    &&& cap.bar_idx < bars.len()
    &&& bars[cap.bar_idx as int] is Some
}

/// Where the driver has the registers of type `t`: those that all devices have,
/// those that a device is notified by, those that tell of its interrupts, and
/// those of its own.
pub open spec fn known(driver: VirtioBlockDriver, t: int) -> u64 {
    if t == 1 {
        driver.common_cfg
    } else if t == 2 {
        driver.notify_base
    } else if t == 3 {
        driver.isr_cfg
    } else {
        driver.device_cfg
    }
}

/// The registers of a type are where the last capability of that type says
/// that leads to memory: at its offset in that memory, as the direct map shows
/// it. Without one there are none, and the device cannot be driven.
pub proof fn law_registers_are_where_they_are_said_to_be(
    dev: PCIDevice,
    caps: Seq<VirtioCapability>,
    bars: Seq<Option<u64>>,
    direct_map: u64,
    t: int,
    k: int,
    n: int,
)
    requires
        1 <= t <= 4,
        -1 <= k < n <= caps.len() || k == -1 && n == 0,
        k >= 0 ==> leads(caps[k], bars, t),
        forall|j: int| k < j < n ==> !leads(#[trigger] caps[j], bars, t),
        k >= 0 ==> bars[caps[k].bar_idx as int]->0 + caps[k].bar_offset + direct_map <= u64::MAX,
    ensures
        ({
            let driver = registers(dev, caps, bars, direct_map, n);
            &&& k >= 0 ==> known(driver, t) == bars[caps[k].bar_idx as int]->0 + caps[k].bar_offset
                + direct_map
            &&& k >= 0 && t == 2 ==> driver.notify_off_multiplier == caps[k].notify_off_multiplier
            &&& k == -1 ==> known(driver, t) == 0 && !complete(driver)
            &&& driver.bus == dev.bus && driver.slot == dev.slot && driver.func == dev.func
        }),
    decreases n,
{
    if n > 0 {
        if k == n - 1 {
            lemma_device_kept(dev, caps, bars, direct_map, n - 1);
        } else {
            assert(!leads(caps[n - 1], bars, t));
            law_registers_are_where_they_are_said_to_be(
                dev,
                caps,
                bars,
                direct_map,
                t,
                k,
                n - 1,
            );
        }
    }
}

proof fn lemma_device_kept(
    dev: PCIDevice,
    caps: Seq<VirtioCapability>,
    bars: Seq<Option<u64>>,
    direct_map: u64,
    n: int,
)
    ensures
        ({
            let driver = registers(dev, caps, bars, direct_map, n);
            driver.bus == dev.bus && driver.slot == dev.slot && driver.func == dev.func
        }),
    decreases n,
{
    if n > 0 {
        lemma_device_kept(dev, caps, bars, direct_map, n - 1);
    }
}

/// All the memory that a capability leads to is mapped, whatever its type.
pub proof fn law_all_registers_are_mapped(
    caps: Seq<VirtioCapability>,
    bars: Seq<Option<u64>>,
    k: int,
    n: int,
    i: int,
)
    requires
        0 <= k < n <= caps.len(),
        leads(caps[k], bars, caps[k].cfg_type as int),
        0 <= i < pages_around(cap_start(caps[k], bars)->0, cap_len(caps[k])).len(),
    ensures
        cap_start(caps[k], bars) == Some(bars[caps[k].bar_idx as int]->0 + caps[k].bar_offset),
        caps[k].bar_len > 0 ==> cap_len(caps[k]) == caps[k].bar_len,
        register_pages(caps, bars, n).contains(
            pages_around(cap_start(caps[k], bars)->0, cap_len(caps[k]))[i],
        ),
    decreases n,
{
    let pages = pages_around(cap_start(caps[k], bars)->0, cap_len(caps[k]));
    let before = register_pages(caps, bars, n - 1);
    let all = register_pages(caps, bars, n);
    if k == n - 1 {
        assert(all[before.len() + i] == pages[i]);
    } else {
        law_all_registers_are_mapped(caps, bars, k, n - 1, i);
        let j = before.index_of(pages[i]);
        assert(all[j] == pages[i]);
    }
}

/// A capability takes up its bytes from its start on: its identifier, where the
/// next one is, its length and its type, then which memory it leads to, and
/// from its ninth byte on the offset there and the length.
pub proof fn law_capability_lies_in_its_bytes(config: Seq<u32>, ptr: u8)
    requires
        ptr as int % 4 == 0,
        ptr <= 236,
    ensures
        ({
            let cap = capability_at(config, ptr);
            &&& cap.cap_id == byte_at(config, ptr as int)
            &&& cap.next_cap == byte_at(config, ptr + 1)
            &&& cap.len == byte_at(config, ptr + 2)
            &&& cap.cfg_type == byte_at(config, ptr + 3)
            &&& cap.bar_idx == byte_at(config, ptr + 4)
            &&& cap.bar_offset == config[ptr as int / 4 + 2]
            &&& cap.bar_len == config[ptr as int / 4 + 3]
            &&& cap.cfg_type == 2 ==> cap.notify_off_multiplier == config[ptr as int / 4 + 4]
        }),
{
    let at = ptr as int;
    assert(word_of(((at + 0) % 256) as u8) == at / 4);
    assert(word_of(((at + 4) % 256) as u8) == at / 4 + 1);
    assert(word_of(((at + 8) % 256) as u8) == at / 4 + 2);
    assert(word_of(((at + 12) % 256) as u8) == at / 4 + 3);
    assert(word_of(((at + 16) % 256) as u8) == at / 4 + 4);
    assert((at + 1) / 4 == at / 4 && (at + 2) / 4 == at / 4 && (at + 3) / 4 == at / 4);
    assert((at + 4) / 4 == at / 4 + 1);
}

/// All capabilities of a function up to number `n` are there.
pub open spec fn listed_up_to(config: Seq<u32>, n: nat) -> bool {
    forall|j: nat| j <= n ==> #[trigger] place_of(config, j) != 0
}

/// Every capability that describes the device is found, wherever it stands in
/// the list.
pub proof fn law_all_capabilities_are_found(config: Seq<u32>, n: nat)
    requires
        n < CAPABILITY_LIMIT,
        listed_up_to(config, n),
        byte_at(config, place_of(config, n) - place_of(config, n) % 4) == 9,
    ensures
        capabilities(config, first_cap(config), CAPABILITY_LIMIT as nat).contains(
            capability_at(config, place_of(config, n) as u8),
        ),
{
    lemma_place(config, first_cap(config));
    lemma_capability_found(config, first_cap(config), 0, n);
}

proof fn lemma_capability_found(config: Seq<u32>, ptr: u8, k: nat, n: nat)
    requires
        k <= n < CAPABILITY_LIMIT,
        place_of(config, k) == ptr,
        listed_up_to(config, n),
        byte_at(config, place_of(config, n) - place_of(config, n) % 4) == 9,
    ensures
        capabilities(config, ptr, (CAPABILITY_LIMIT - k) as nat).contains(
            capability_at(config, place_of(config, n) as u8),
        ),
    decreases n - k,
{
    lemma_place(config, ptr);
    assert(place_of(config, k) != 0);
    let all = capabilities(config, ptr, (CAPABILITY_LIMIT - k) as nat);
    let item = capability_at(config, place_of(config, n) as u8);
    if k == n {
        assert(cap_id(config, ptr) == 9);
        assert(all[0] == item);
    } else {
        let rest = capabilities(config, cap_next(config, ptr), (CAPABILITY_LIMIT - k - 1) as nat);
        assert(place_of(config, k + 1) == cap_next(config, ptr));
        lemma_capability_found(config, cap_next(config, ptr), k + 1, n);
        let j = rest.index_of(item);
        assert(all[all.len() - rest.len() + j] == item);
    }
}

/// A device gets no more queues than there are cores, nor more than it has,
/// which is one unless it says otherwise, and as many as that allows.
pub proof fn law_queues_are_for_cores(dev_feature: u32, num_queues: u16, cores: usize)
    ensures
        ({
            let n = queue_count(dev_feature, num_queues, cores);
            let has = if feature(dev_feature, 12) {
                num_queues as int
            } else {
                1
            };
            &&& n <= cores
            &&& n <= has
            &&& n == cores || n == has
        }),
{
}

/// Queue `i` is chosen at place `k` of what is written to a device. Where its
/// interrupt could be registered it is told its vector, and then it is switched
/// on.
pub open spec fn switched_on(
    writes: Seq<QueueWrite>,
    k: int,
    i: int,
    registered: bool,
) -> bool {
    &&& 0 <= k
    &&& k + 2 <= writes.len()
    &&& writes[k] == QueueWrite::Select(i as u16)
    &&& registered ==> k + 3 <= writes.len() && writes[k + 1] == QueueWrite::MsixVector(i as u16)
        && writes[k + 2] == QueueWrite::Enable
    &&& !registered ==> writes[k + 1] == QueueWrite::Enable
}

/// Every queue is switched on, and told its vector before that if it has an
/// interrupt.
pub proof fn law_every_queue_is_switched_on(registered: Seq<bool>, n: int, i: int)
    requires
        0 <= i < n <= registered.len(),
    ensures
        exists|k: int| #[trigger] switched_on(all_writes(registered, n), k, i, registered[i]),
    decreases n,
{
    let before = all_writes(registered, n - 1);
    let all = all_writes(registered, n);
    if i == n - 1 {
        assert(switched_on(all, before.len() as int, i, registered[i]));
    } else {
        law_every_queue_is_switched_on(registered, n - 1, i);
        let k = choose|k: int| #[trigger] switched_on(before, k, i, registered[i]);
        assert(switched_on(all, k, i, registered[i]));
    }
}

/// The registers that all devices have follow one another: the features that are
/// offered and accepted, how many queues there are, the status, and then what
/// the chosen queue is set up with.
pub proof fn law_common_registers_lie_in_their_bytes(s: Seq<u8>)
    ensures
        ({
            let cfg = common_cfg_of(s);
            &&& cfg.dev_feature_select == le32(s, 0)
            &&& cfg.dev_feature == le32(s, 4)
            &&& cfg.driv_feature_select == le32(s, 8)
            &&& cfg.driv_feature == le32(s, 12)
            &&& cfg.num_queues == le16(s, 18)
            &&& cfg.device_status == s[20]
            &&& cfg.queue_select == le16(s, 22)
            &&& cfg.queue_size == le16(s, 24)
            &&& cfg.queue_msix_vector == le16(s, 26)
            &&& cfg.queue_enable == le16(s, 28)
            &&& cfg.queue_notify_off == le16(s, 30)
            &&& cfg.queue_desc == le64(s, 32)
            &&& cfg.queue_driver == le64(s, 40)
            &&& cfg.queue_device == le64(s, 48)
        }),
{
}

} // verus!
