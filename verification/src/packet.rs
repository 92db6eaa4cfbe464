//! The packets and errors of the reliable channels.

use vstd::prelude::*;
use bytes::Bytes;
use crate::payload::bytes_view;

verus! {

/// The largest payload that one packet carries; larger messages are sent in slices.
pub const SLICE_SIZE: usize = 1200;

/// One slice of a large message.
pub struct Slice {
    pub message_id: u64,
    pub slice_index: usize,
    pub num_slices: usize,
    pub payload: Bytes,
}

/// A packet of a reliable channel.
pub enum Packet {
    /// Whole messages, each with its id.
    SmallReliable { sequence: u64, channel_id: u8, messages: Vec<(u64, Bytes)> },
    /// One slice of a large message.
    ReliableSlice { sequence: u64, channel_id: u8, slice: Slice },
}

/// Why a reliable channel refused a message.
#[derive(PartialEq, Eq, Structural, Clone, Copy, Debug)]
pub enum ChannelError {
    ReliableChannelMaxMemoryReached,
    InvalidSliceMessage,
}

/// What a packet holds.
pub ghost enum PacketView {
    SmallReliable { sequence: nat, channel_id: u8, messages: Seq<(u64, Seq<u8>)> },
    ReliableSlice {
        sequence: nat,
        channel_id: u8,
        message_id: u64,
        slice_index: nat,
        num_slices: nat,
        payload: Seq<u8>,
    },
}

/// The contents of a packet.
pub open spec fn packet_view(p: Packet) -> PacketView {
    match p {
        Packet::SmallReliable { sequence, channel_id, messages } => PacketView::SmallReliable {
            sequence: sequence as nat,
            channel_id,
            messages: messages_view(messages@),
        },
        Packet::ReliableSlice { sequence, channel_id, slice } => PacketView::ReliableSlice {
            sequence: sequence as nat,
            channel_id,
            message_id: slice.message_id,
            slice_index: slice.slice_index as nat,
            num_slices: slice.num_slices as nat,
            payload: bytes_view(slice.payload),
        },
    }
}

/// The contents of a list of packets.
pub open spec fn packets_view(ps: Seq<Packet>) -> Seq<PacketView> {
    ps.map_values(|p: Packet| packet_view(p))
}

/// The ids and bytes of the messages of a small-message packet.
pub open spec fn messages_view(messages: Seq<(u64, Bytes)>) -> Seq<(u64, Seq<u8>)> {
    messages.map_values(|m: (u64, Bytes)| (m.0, bytes_view(m.1)))
}

} // verus!
