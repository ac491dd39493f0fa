//! The byte counters of an address space.

use super::types::VmaChargeKind;
use vstd::prelude::*;

verus! {

#[derive(Debug, Clone, Copy, PartialEq, Eq, Structural)]
pub struct VmAccountingSnapshot {
    pub reserved_bytes: u64,
    pub committed_bytes: u64,
    pub resident_bytes: u64,
    pub private_bytes: u64,
    pub shared_bytes: u64,
    pub page_table_bytes: u64,
}

impl Default for VmAccountingSnapshot {
    fn default() -> (r: Self)
        ensures
            r == VmAccountingSnapshot::zero(),
    {
        VmAccountingSnapshot {
            reserved_bytes: 0,
            committed_bytes: 0,
            resident_bytes: 0,
            private_bytes: 0,
            shared_bytes: 0,
            page_table_bytes: 0,
        }
    }
}

impl VmAccountingSnapshot {
    pub open spec fn zero() -> Self {
        VmAccountingSnapshot {
            reserved_bytes: 0,
            committed_bytes: 0,
            resident_bytes: 0,
            private_bytes: 0,
            shared_bytes: 0,
            page_table_bytes: 0,
        }
    }
}

/// A counter raised by `val`; it wraps at 64 bits.
pub open spec fn raised(counter: u64, val: int) -> u64 {
    ((counter + val) % 0x1_0000_0000_0000_0000) as u64
}

/// A counter lowered by `val`; it stops at zero.
pub open spec fn lowered(counter: u64, val: int) -> u64 {
    if val >= counter {
        0
    } else {
        (counter - val) as u64
    }
}

#[derive(Debug)]
pub struct VmAccounting {
    pub reserved_bytes: u64,
    pub committed_bytes: u64,
    pub resident_bytes: u64,
    pub private_bytes: u64,
    pub shared_bytes: u64,
    pub page_table_bytes: u64,
}

impl VmAccounting {
    pub open spec fn view(&self) -> VmAccountingSnapshot {
        VmAccountingSnapshot {
            reserved_bytes: self.reserved_bytes,
            committed_bytes: self.committed_bytes,
            resident_bytes: self.resident_bytes,
            private_bytes: self.private_bytes,
            shared_bytes: self.shared_bytes,
            page_table_bytes: self.page_table_bytes,
        }
    }

    pub fn new() -> (r: Self)
        ensures
            r@ == VmAccountingSnapshot::zero(),
    {
        Self {
            reserved_bytes: 0,
            committed_bytes: 0,
            resident_bytes: 0,
            private_bytes: 0,
            shared_bytes: 0,
            page_table_bytes: 0,
        }
    }

    pub fn snapshot(&self) -> (r: VmAccountingSnapshot)
        ensures
            r == self@,
    {
        VmAccountingSnapshot {
            reserved_bytes: self.reserved_bytes,
            committed_bytes: self.committed_bytes,
            resident_bytes: self.resident_bytes,
            private_bytes: self.private_bytes,
            shared_bytes: self.shared_bytes,
            page_table_bytes: self.page_table_bytes,
        }
    }

    pub fn add_reserved(&mut self, bytes: u64)
        ensures
            final(self)@ == (VmAccountingSnapshot {
                reserved_bytes: raised(old(self).reserved_bytes, bytes as int),
                ..old(self)@
            }),
    {
        self.reserved_bytes = counter_add(self.reserved_bytes, bytes);
    }

    pub fn sub_reserved(&mut self, bytes: u64)
        ensures
            final(self)@ == (VmAccountingSnapshot {
                reserved_bytes: lowered(old(self).reserved_bytes, bytes as int),
                ..old(self)@
            }),
    {
        self.reserved_bytes = counter_sub(self.reserved_bytes, bytes);
    }

    pub fn add_committed(&mut self, bytes: u64)
        ensures
            final(self)@ == (VmAccountingSnapshot {
                committed_bytes: raised(old(self).committed_bytes, bytes as int),
                ..old(self)@
            }),
    {
        self.committed_bytes = counter_add(self.committed_bytes, bytes);
    }

    pub fn sub_committed(&mut self, bytes: u64)
        ensures
            final(self)@ == (VmAccountingSnapshot {
                committed_bytes: lowered(old(self).committed_bytes, bytes as int),
                ..old(self)@
            }),
    {
        self.committed_bytes = counter_sub(self.committed_bytes, bytes);
    }

    pub fn add_resident(&mut self, bytes: u64, charge: VmaChargeKind)
        ensures
            final(self)@ == (VmAccountingSnapshot {
                resident_bytes: raised(old(self).resident_bytes, bytes as int),
                private_bytes: if charge is Private {
                    raised(old(self).private_bytes, bytes as int)
                } else {
                    old(self).private_bytes
                },
                shared_bytes: if charge is Shared {
                    raised(old(self).shared_bytes, bytes as int)
                } else {
                    old(self).shared_bytes
                },
                ..old(self)@
            }),
    {
        self.resident_bytes = counter_add(self.resident_bytes, bytes);
        match charge {
            VmaChargeKind::Private => {
                self.private_bytes = counter_add(self.private_bytes, bytes);
            },
            VmaChargeKind::Shared => {
                self.shared_bytes = counter_add(self.shared_bytes, bytes);
            },
            VmaChargeKind::ReservedOnly | VmaChargeKind::Device => {},
        }
    }

    pub fn sub_resident(&mut self, bytes: u64, charge: VmaChargeKind)
        ensures
            final(self)@ == (VmAccountingSnapshot {
                resident_bytes: lowered(old(self).resident_bytes, bytes as int),
                private_bytes: if charge is Private {
                    lowered(old(self).private_bytes, bytes as int)
                } else {
                    old(self).private_bytes
                },
                shared_bytes: if charge is Shared {
                    lowered(old(self).shared_bytes, bytes as int)
                } else {
                    old(self).shared_bytes
                },
                ..old(self)@
            }),
    {
        self.resident_bytes = counter_sub(self.resident_bytes, bytes);
        match charge {
            VmaChargeKind::Private => {
                self.private_bytes = counter_sub(self.private_bytes, bytes);
            },
            VmaChargeKind::Shared => {
                self.shared_bytes = counter_sub(self.shared_bytes, bytes);
            },
            VmaChargeKind::ReservedOnly | VmaChargeKind::Device => {},
        }
    }
}

fn counter_sub(counter: u64, val: u64) -> (r: u64)
    ensures
        r == lowered(counter, val as int),
{
    counter.saturating_sub(val)
}

fn counter_add(counter: u64, val: u64) -> (r: u64)
    ensures
        r == raised(counter, val as int),
{
    counter.wrapping_add(val)
}

/// Charging resident bytes and then releasing them leaves every counter as it
/// was, as long as none of them wrapped.
pub proof fn law_resident_round_trip(before: VmAccountingSnapshot, bytes: u64)
    requires
        before.resident_bytes + bytes <= u64::MAX,
        before.private_bytes + bytes <= u64::MAX,
        before.shared_bytes + bytes <= u64::MAX,
    ensures
        lowered(raised(before.resident_bytes, bytes as int), bytes as int)
            == before.resident_bytes,
        lowered(raised(before.private_bytes, bytes as int), bytes as int) == before.private_bytes,
        lowered(raised(before.shared_bytes, bytes as int), bytes as int) == before.shared_bytes,
{
}

} // verus!
