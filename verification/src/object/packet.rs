//! The packets that lists are sent in.

use vstd::prelude::*;

verus! {

/// What a packet holds.
#[derive(Debug, Clone, Copy, PartialEq, Eq, Structural)]
pub enum PacketType {
    DirectoryEntry,
    ProcessInfo,
}

/// What stands before the payload of a packet. The mark that tells a packet
/// from other bytes goes in front of it where the packet is sent.
#[derive(Debug, Clone, Copy, PartialEq, Eq, Structural)]
pub struct PacketHeader {
    pub version: u32,
    pub is_stream: bool,
    pub has_next: bool,
    pub packet_type: PacketType,
    pub payload_len: u32,
    pub reserved: u32,
}

/// The bytes of an entry of a directory: its type, the length of its name, and
/// the room for one.
pub const DIR_ENTRY_LEN: u32 = 256;

/// The header of a packet of a list.
pub open spec fn stream_header(
    packet_type: PacketType,
    payload_len: u32,
    has_next: bool,
) -> PacketHeader {
    PacketHeader { version: 1, is_stream: true, has_next, packet_type, payload_len, reserved: 0 }
}

impl PacketHeader {
    pub fn stream(packet_type: PacketType, payload_len: u32, has_next: bool) -> (r: Self)
        ensures
            r == stream_header(packet_type, payload_len, has_next),
    {
        PacketHeader {
            version: 1,
            is_stream: true,
            has_next,
            packet_type,
            payload_len,
            reserved: 0,
        }
    }
}

} // verus!
