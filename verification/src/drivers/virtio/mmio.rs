//! Where the registers of a virtio device are.

use crate::common::bytes::{get16, get32, get64, le16, le32, le64};
use crate::drivers::pci::config::{
    cap_id, cap_next, first_cap, pages_around, pci_config_read_32, touched_pages, word_of,
    ConfigSpace, PCIDevice, CAPABILITY_LIMIT,
};
use vstd::prelude::*;

verus! {

pub const VIRTIO_VENDOR: u16 = 0x1AF4;

pub const VIRTIO_BLOCK_DEVICE: u16 = 0x1042;

/// The identifier of the capabilities that describe a virtio device.
pub const VENDOR_CAPABILITY: u8 = 0x9;

/// A capability that says where some of a device's registers are.
#[derive(Debug, Clone, Copy, PartialEq, Eq, Structural)]
pub struct VirtioCapability {
    pub cap_id: u8,
    pub next_cap: u8,
    pub len: u8,
    pub cfg_type: u8,
    pub bar_idx: u8,
    pub bar_offset: u32,
    pub bar_len: u32,
    pub notify_off_multiplier: u32,
}

/// The registers of a block device, by address.
#[derive(Debug, Clone, Copy, PartialEq, Eq, Structural)]
pub struct VirtioBlockDriver {
    pub bus: u8,
    pub slot: u8,
    pub func: u8,
    pub common_cfg: u64,
    pub notify_base: u64,
    pub notify_off_multiplier: u32,
    pub isr_cfg: u64,
    pub device_cfg: u64,
}

/// The registers that a device is set up by.
#[derive(Debug, Clone, Copy, PartialEq, Eq, Structural)]
pub struct VirtioCommonCfg {
    pub dev_feature_select: u32,
    pub dev_feature: u32,
    pub driv_feature_select: u32,
    pub driv_feature: u32,
    pub config_msix_vector: u16,
    pub num_queues: u16,
    pub device_status: u8,
    pub config_gen: u8,
    pub queue_select: u16,
    pub queue_size: u16,
    pub queue_msix_vector: u16,
    pub queue_enable: u16,
    pub queue_notify_off: u16,
    pub queue_desc: u64,
    pub queue_driver: u64,
    pub queue_device: u64,
}

/// The registers as they lie in memory, one after the other.
pub open spec fn common_cfg_of(s: Seq<u8>) -> VirtioCommonCfg {
    VirtioCommonCfg {
        dev_feature_select: le32(s, 0),
        dev_feature: le32(s, 4),
        driv_feature_select: le32(s, 8),
        driv_feature: le32(s, 12),
        config_msix_vector: le16(s, 16),
        num_queues: le16(s, 18),
        device_status: s[20],
        config_gen: s[21],
        queue_select: le16(s, 22),
        queue_size: le16(s, 24),
        queue_msix_vector: le16(s, 26),
        queue_enable: le16(s, 28),
        queue_notify_off: le16(s, 30),
        queue_desc: le64(s, 32),
        queue_driver: le64(s, 40),
        queue_device: le64(s, 48),
    }
}

impl VirtioCommonCfg {
    /// Reads the registers from the bytes that were read of them.
    pub fn read(bytes: &Vec<u8>) -> (r: Option<Self>)
        ensures
            r == if bytes@.len() < 56 {
                None
            } else {
                Some(common_cfg_of(bytes@))
            },
    {
        if bytes.len() < 56 {
            return None;
        }
        Some(
            VirtioCommonCfg {
                dev_feature_select: get32(bytes, 0),
                dev_feature: get32(bytes, 4),
                driv_feature_select: get32(bytes, 8),
                driv_feature: get32(bytes, 12),
                config_msix_vector: get16(bytes, 16),
                num_queues: get16(bytes, 18),
                device_status: bytes[20],
                config_gen: bytes[21],
                queue_select: get16(bytes, 22),
                queue_size: get16(bytes, 24),
                queue_msix_vector: get16(bytes, 26),
                queue_enable: get16(bytes, 28),
                queue_notify_off: get16(bytes, 30),
                queue_desc: get64(bytes, 32),
                queue_driver: get64(bytes, 40),
                queue_device: get64(bytes, 48),
            },
        )
    }
}

/// A byte of a word.
pub open spec fn byte_of(val: u32, slice_idx: u8) -> u8 {
    if slice_idx == 0 {
        (val as int % 0x100) as u8
    } else if slice_idx == 1 {
        (val as int / 0x100 % 0x100) as u8
    } else if slice_idx == 2 {
        (val as int / 0x1_0000 % 0x100) as u8
    } else {
        (val as int / 0x100_0000) as u8
    }
}

fn read_byte_slice(val: u32, slice_idx: u8) -> (r: u8)
    requires
        slice_idx < 4,
    ensures
        r == byte_of(val, slice_idx),
{
    match slice_idx {
        0 => (val % 0x100) as u8,
        1 => (val / 0x100 % 0x100) as u8,
        2 => (val / 0x1_0000 % 0x100) as u8,
        _ => (val / 0x100_0000) as u8,
    }
}

/// A word some bytes behind the start of a capability.
pub open spec fn cap_word(config: Seq<u32>, ptr: u8, offset: int) -> u32 {
    config[word_of(((ptr + offset) % 256) as u8)]
}

/// The capability at `ptr`.
pub open spec fn capability_at(config: Seq<u32>, ptr: u8) -> VirtioCapability {
    let head = cap_word(config, ptr, 0);
    VirtioCapability {
        cap_id: byte_of(head, 0),
        next_cap: byte_of(head, 1),
        len: byte_of(head, 2),
        cfg_type: byte_of(head, 3),
        bar_idx: byte_of(cap_word(config, ptr, 4), 0),
        bar_offset: cap_word(config, ptr, 8),
        bar_len: cap_word(config, ptr, 12),
        notify_off_multiplier: if byte_of(head, 3) == 2 {
            cap_word(config, ptr, 16)
        } else {
            0
        },
    }
}

/// The capabilities from `ptr` on, of at most `n`, that describe the device.
pub open spec fn capabilities(config: Seq<u32>, ptr: u8, n: nat) -> Seq<VirtioCapability>
    decreases n,
{
    if n == 0 || ptr == 0 {
        Seq::empty()
    } else {
        let rest = capabilities(config, cap_next(config, ptr), (n - 1) as nat);
        if cap_id(config, ptr) == VENDOR_CAPABILITY {
            seq![capability_at(config, ptr)] + rest
        } else {
            rest
        }
    }
}

/// Lists the capabilities that describe a virtio device.
pub fn walk_cap(config: &ConfigSpace) -> (r: Vec<VirtioCapability>)
    requires
        config.wf(),
    ensures
        r@ == capabilities(config@, first_cap(config@), CAPABILITY_LIMIT as nat),
{
    let mut caps: Vec<VirtioCapability> = Vec::new();
    let mut current_ptr = (pci_config_read_32(config, 0x34) % 0x100) as u8;
    let mut left: u32 = CAPABILITY_LIMIT;
    let ghost all = capabilities(config@, current_ptr, left as nat);
    assert(all =~= caps@ + all);
    while current_ptr != 0 && left > 0
        invariant
            config.wf(),
            all == caps@ + capabilities(config@, current_ptr, left as nat),
        decreases left,
    {
        let ghost before = caps@;
        let head = pci_config_read_32(config, current_ptr);
        let next_cap = read_byte_slice(head, 1);
        let ghost rest = capabilities(config@, next_cap, (left - 1) as nat);
        let cfg_type = read_byte_slice(head, 3);
        if read_byte_slice(head, 0) == VENDOR_CAPABILITY {
            let bar_word = pci_config_read_32(config, current_ptr.wrapping_add(4));
            let notify_off_multiplier = if cfg_type == 2 {
                pci_config_read_32(config, current_ptr.wrapping_add(16))
            } else {
                0
            };
            let capability = VirtioCapability {
                cap_id: read_byte_slice(head, 0),
                next_cap,
                len: read_byte_slice(head, 2),
                cfg_type,
                bar_idx: read_byte_slice(bar_word, 0),
                bar_offset: pci_config_read_32(config, current_ptr.wrapping_add(8)),
                bar_len: pci_config_read_32(config, current_ptr.wrapping_add(12)),
                notify_off_multiplier,
            };
            assert(capability == capability_at(config@, current_ptr));
            caps.push(capability);
            assert(before + (seq![capability] + rest) =~= caps@ + rest);
        }
        current_ptr = next_cap;
        left -= 1;
    }
    assert(capabilities(config@, current_ptr, left as nat) =~= Seq::empty());
    assert(caps@ + Seq::<VirtioCapability>::empty() =~= caps@);
    caps
}

/// The address in physical memory that a capability leads to, where the
/// register it names leads to memory.
pub open spec fn cap_start(cap: VirtioCapability, bars: Seq<Option<u64>>) -> Option<int> {
    if cap.bar_idx >= 6 || cap.bar_idx >= bars.len() {
        None
    } else {
        match bars[cap.bar_idx as int] {
            None => None,
            Some(addr) => Some(addr + cap.bar_offset),
        }
    }
}

/// How many bytes of memory a capability is about.
pub open spec fn cap_len(cap: VirtioCapability) -> int {
    if cap.bar_len == 0 {
        1
    } else {
        cap.bar_len as int
    }
}

/// What is known of a device's registers after the first `n` capabilities.
/// Those that are not known are zero; of several capabilities of a type the
/// last one counts.
pub open spec fn registers(
    dev: PCIDevice,
    caps: Seq<VirtioCapability>,
    bars: Seq<Option<u64>>,
    direct_map: u64,
    n: int,
) -> VirtioBlockDriver
    decreases n,
{
    if n <= 0 {
        VirtioBlockDriver {
            bus: dev.bus,
            slot: dev.slot,
            func: dev.func,
            common_cfg: 0,
            notify_base: 0,
            notify_off_multiplier: 0,
            isr_cfg: 0,
            device_cfg: 0,
        }
    } else {
        let known = registers(dev, caps, bars, direct_map, n - 1);
        let cap = caps[n - 1];
        match cap_start(cap, bars) {
            None => known,
            Some(start) => {
                let virt = (start + direct_map) as u64;
                if cap.cfg_type == 1 {
                    VirtioBlockDriver { common_cfg: virt, ..known }
                } else if cap.cfg_type == 2 {
                    VirtioBlockDriver {
                        notify_base: virt,
                        notify_off_multiplier: cap.notify_off_multiplier,
                        ..known
                    }
                } else if cap.cfg_type == 3 {
                    VirtioBlockDriver { isr_cfg: virt, ..known }
                } else if cap.cfg_type == 4 {
                    VirtioBlockDriver { device_cfg: virt, ..known }
                } else {
                    known
                }
            },
        }
    }
}

/// The pages that the first `n` capabilities are about.
pub open spec fn register_pages(caps: Seq<VirtioCapability>, bars: Seq<Option<u64>>, n: int) -> Seq<u64>
    decreases n,
{
    if n <= 0 {
        Seq::empty()
    } else {
        match cap_start(caps[n - 1], bars) {
            None => register_pages(caps, bars, n - 1),
            Some(start) => register_pages(caps, bars, n - 1) + pages_around(
                start,
                cap_len(caps[n - 1]),
            ),
        }
    }
}

/// All registers that the driver needs are known.
pub open spec fn complete(driver: VirtioBlockDriver) -> bool {
    &&& driver.common_cfg != 0
    &&& driver.notify_base != 0
    &&& driver.isr_cfg != 0
    &&& driver.device_cfg != 0
}

/// Finds the registers of a block device. `bars` holds the addresses of the
/// memory that the device has; a register that leads to no memory has none.
/// The reply is the pages that have to be mapped, and the registers, if all
/// that are needed were found.
pub fn init_virtio(
    dev: &PCIDevice,
    caps: &Vec<VirtioCapability>,
    bars: &Vec<Option<u64>>,
    direct_map: u64,
) -> (r: (Vec<u64>, Option<VirtioBlockDriver>))
    requires
        forall|i: int| #![trigger bars@[i]]
            0 <= i < bars@.len() ==> (bars@[i] matches Some(addr) ==> addr + direct_map
                + 0x2_0000_0000 <= u64::MAX),
    ensures
        r.0@ == register_pages(caps@, bars@, caps@.len() as int),
        ({
            let driver = registers(*dev, caps@, bars@, direct_map, caps@.len() as int);
            r.1 == if complete(driver) {
                Some(driver)
            } else {
                None
            }
        }),
{
    let mut pages: Vec<u64> = Vec::new();
    let mut driver = VirtioBlockDriver {
        bus: dev.bus,
        slot: dev.slot,
        func: dev.func,
        common_cfg: 0,
        notify_base: 0,
        notify_off_multiplier: 0,
        isr_cfg: 0,
        device_cfg: 0,
    };
    let mut i: usize = 0;
    while i < caps.len()
        invariant
            i <= caps@.len(),
            forall|i: int| #![trigger bars@[i]]
                0 <= i < bars@.len() ==> (bars@[i] matches Some(addr) ==> addr + direct_map
                    + 0x2_0000_0000 <= u64::MAX),
            pages@ == register_pages(caps@, bars@, i as int),
            driver == registers(*dev, caps@, bars@, direct_map, i as int),
        decreases caps@.len() - i,
    {
        let cap = caps[i];
        let idx = cap.bar_idx as usize;
        if idx < 6 && idx < bars.len() {
            if let Some(addr) = bars[idx] {
                assert(bars@[idx as int] is Some);
                let start = addr + cap.bar_offset as u64;
                let len = if cap.bar_len == 0 {
                    1
                } else {
                    cap.bar_len as u64
                };
                let mut touched = touched_pages(start, len);
                let ghost before = pages@;
                pages.append(&mut touched);
                assert(pages@ =~= before + pages_around(start as int, len as int));
                let virt = start + direct_map;
                match cap.cfg_type {
                    1 => {
                        driver.common_cfg = virt;
                    },
                    2 => {
                        driver.notify_base = virt;
                        driver.notify_off_multiplier = cap.notify_off_multiplier;
                    },
                    3 => {
                        driver.isr_cfg = virt;
                    },
                    4 => {
                        driver.device_cfg = virt;
                    },
                    _ => {},
                }
            }
        }
        i += 1;
    }
    if driver.common_cfg == 0 || driver.notify_base == 0 || driver.isr_cfg == 0
        || driver.device_cfg == 0 {
        return (pages, None);
    }
    (pages, Some(driver))
}

} // verus!
