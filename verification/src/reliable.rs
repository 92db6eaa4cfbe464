//! Reliable channels: the sending side keeps every message until it is
//! acknowledged and sends it again after `resend_time`; the receiving side
//! delivers each message once, in order of message id when ordered.

use vstd::prelude::*;
use std::collections::{BTreeMap, BTreeSet, HashMap};
use bytes::Bytes;
use crate::packet::{ChannelError, Packet, PacketView, Slice, SLICE_SIZE, packets_view, messages_view};
use crate::payload::{bytes_view, bytes_len, bytes_clone, bytes_slice, varint_len, spec_varint_len, VARINT_MAX};
use crate::ordered_keys::first_key;
use crate::slice_constructor::{
    count_true, SliceConstructor, SliceConstructorView, process_slice_spec, lemma_data_after_len,
};

verus! {

broadcast use {
    vstd::std_specs::btree::group_btree_axioms,
    vstd::std_specs::hash::group_hash_axioms,
    vstd::laws_cmp::group_laws_cmp,
};

/// A message that has not been acknowledged yet.
pub enum UnackedMessage {
    /// A message that fits in one packet, with the time it was last sent.
    Small { message: Bytes, last_sent: Option<u128> },
    /// A message sent in slices, with the slices acknowledged so far and the
    /// time each slice was last sent.
    Sliced {
        message: Bytes,
        num_slices: usize,
        num_acked_slices: usize,
        next_slice_to_send: usize,
        acked: Vec<bool>,
        last_sent: Vec<Option<u128>>,
    },
}

/// What an unacknowledged message holds.
pub ghost enum UnackedView {
    Small { message: Seq<u8>, last_sent: Option<u128> },
    Sliced {
        message: Seq<u8>,
        num_slices: nat,
        num_acked_slices: nat,
        next_slice_to_send: nat,
        acked: Seq<bool>,
        last_sent: Seq<Option<u128>>,
    },
}

impl UnackedMessage {
    pub open spec fn view(&self) -> UnackedView {
        match self {
            UnackedMessage::Small { message, last_sent } => UnackedView::Small {
                message: bytes_view(*message),
                last_sent: *last_sent,
            },
            UnackedMessage::Sliced {
                message,
                num_slices,
                num_acked_slices,
                next_slice_to_send,
                acked,
                last_sent,
            } => UnackedView::Sliced {
                message: bytes_view(*message),
                num_slices: *num_slices as nat,
                num_acked_slices: *num_acked_slices as nat,
                next_slice_to_send: *next_slice_to_send as nat,
                acked: acked@,
                last_sent: last_sent@,
            },
        }
    }
}

impl UnackedView {
    /// The bytes of the message.
    pub open spec fn message(self) -> Seq<u8> {
        match self {
            UnackedView::Small { message, .. } => message,
            UnackedView::Sliced { message, .. } => message,
        }
    }

    /// Sizes and counters agree: a small message fits in one slice; a sliced
    /// one is longer, has one flag and one send time per slice, and counts
    /// its acknowledged slices, which are fewer than all of them.
    pub open spec fn wf(self) -> bool {
        &&& self.message().len() <= isize::MAX
        &&& match self {
            UnackedView::Small { message, .. } => message.len() <= SLICE_SIZE,
            UnackedView::Sliced {
                message,
                num_slices,
                num_acked_slices,
                next_slice_to_send,
                acked,
                last_sent,
            } => {
                &&& SLICE_SIZE < message.len()
                &&& num_slices == num_slices_for(message.len())
                &&& acked.len() == num_slices
                &&& last_sent.len() == num_slices
                &&& num_acked_slices == count_true(acked)
                &&& num_acked_slices < num_slices
                &&& next_slice_to_send <= num_slices
            },
        }
    }
}

/// The number of slices that a message of `len` bytes takes.
pub open spec fn num_slices_for(len: nat) -> nat {
    ((len + SLICE_SIZE - 1) / (SLICE_SIZE as int)) as nat
}

/// The message that `send_message` queues for `message`: small when it
/// fits in one slice, else sliced with nothing acknowledged or sent.
pub open spec fn new_unacked(message: Seq<u8>) -> UnackedView {
    if message.len() > SLICE_SIZE {
        let n = num_slices_for(message.len());
        UnackedView::Sliced {
            message,
            num_slices: n,
            num_acked_slices: 0,
            next_slice_to_send: 0,
            acked: Seq::new(n, |i: int| false),
            last_sent: Seq::new(n, |i: int| None),
        }
    } else {
        UnackedView::Small { message, last_sent: None }
    }
}

/// Bytes held by the messages with ids below `n`.
pub open spec fn mem_sum(m: Map<u64, UnackedView>, n: int) -> nat
    decreases n,
{
    if n <= 0 {
        0
    } else {
        mem_sum(m, n - 1) + if m.contains_key((n - 1) as u64) {
            m[(n - 1) as u64].message().len()
        } else {
            0
        }
    }
}

proof fn lemma_mem_sum_ext(m1: Map<u64, UnackedView>, m2: Map<u64, UnackedView>, n: int)
    requires
        n <= u64::MAX + 1,
        forall|i: u64| #![trigger m1.contains_key(i)] #![trigger m2.contains_key(i)]
            i < n ==> (m1.contains_key(i) <==> m2.contains_key(i)),
        forall|i: u64| #![trigger m1[i]] #![trigger m2[i]]
            i < n && m1.contains_key(i) ==> m1[i].message().len() == m2[i].message().len(),
    ensures
        mem_sum(m1, n) == mem_sum(m2, n),
    decreases n,
{
    if n > 0 {
        lemma_mem_sum_ext(m1, m2, n - 1);
        let k = (n - 1) as u64;
        assert(m1.contains_key(k) <==> m2.contains_key(k));
        if m1.contains_key(k) {
            assert(m1[k].message().len() == m2[k].message().len());
        }
    }
}

proof fn lemma_mem_sum_remove(m: Map<u64, UnackedView>, k: u64, n: int)
    requires
        n <= u64::MAX + 1,
        m.contains_key(k),
        k < n,
    ensures
        mem_sum(m.remove(k), n) + m[k].message().len() == mem_sum(m, n),
    decreases n,
{
    if n - 1 == k {
        lemma_mem_sum_ext(m.remove(k), m, n - 1);
    } else {
        lemma_mem_sum_remove(m, k, n - 1);
    }
}

/// The state of a sending channel.
pub ghost struct SendChannelView {
    pub channel_id: u8,
    pub unacked: Map<u64, UnackedView>,
    pub next_reliable_message_id: u64,
    pub resend_time: u128,
    pub max_memory_usage_bytes: nat,
    pub memory_usage_bytes: nat,
}

/// The sending side of a reliable channel. Times are in nanoseconds.
pub struct SendChannelReliable {
    channel_id: u8,
    unacked_messages: BTreeMap<u64, UnackedMessage>,
    next_reliable_message_id: u64,
    resend_time: u128,
    max_memory_usage_bytes: usize,
    memory_usage_bytes: usize,
}

impl SendChannelReliable {
    pub closed spec fn view(&self) -> SendChannelView {
        SendChannelView {
            channel_id: self.channel_id,
            unacked: self.unacked_messages@.map_values(|u: UnackedMessage| u.view()),
            next_reliable_message_id: self.next_reliable_message_id,
            resend_time: self.resend_time,
            max_memory_usage_bytes: self.max_memory_usage_bytes as nat,
            memory_usage_bytes: self.memory_usage_bytes as nat,
        }
    }

    /// Every queued message has an id below the next one and is well
    /// formed, and the memory in use is the bytes of the queued messages,
    /// within the limit.
    pub open spec fn wf(&self) -> bool {
        let v = self.view();
        &&& forall|id: u64| #[trigger] v.unacked.contains_key(id) ==> id < v.next_reliable_message_id && v.unacked[id].wf()
        &&& v.memory_usage_bytes == mem_sum(v.unacked, v.next_reliable_message_id as int)
        &&& v.memory_usage_bytes <= v.max_memory_usage_bytes
    }

    /// An empty channel.
    pub fn new(channel_id: u8, resend_time: u128, max_memory_usage_bytes: usize) -> (ch: Self)
        ensures
            ch.wf(),
            ch.view() == (SendChannelView {
                channel_id,
                unacked: Map::empty(),
                next_reliable_message_id: 0,
                resend_time,
                max_memory_usage_bytes: max_memory_usage_bytes as nat,
                memory_usage_bytes: 0,
            }),
    {
        let ch = Self {
            channel_id,
            unacked_messages: BTreeMap::new(),
            next_reliable_message_id: 0,
            resend_time,
            max_memory_usage_bytes,
            memory_usage_bytes: 0,
        };
        assert(ch.view().unacked =~= Map::empty());
        ch
    }
}

fn false_flags(n: usize) -> (v: Vec<bool>)
    ensures
        v@ == Seq::new(n as nat, |i: int| false),
{
    let mut v: Vec<bool> = Vec::new();
    let mut i: usize = 0;
    while i < n
        invariant
            i <= n,
            v@ == Seq::new(i as nat, |j: int| false),
        decreases n - i,
    {
        v.push(false);
        i += 1;
        assert(v@ =~= Seq::new(i as nat, |j: int| false));
    }
    v
}

fn unsent_times(n: usize) -> (v: Vec<Option<u128>>)
    ensures
        v@ == Seq::new(n as nat, |i: int| None::<u128>),
{
    let mut v: Vec<Option<u128>> = Vec::new();
    let mut i: usize = 0;
    while i < n
        invariant
            i <= n,
            v@ == Seq::new(i as nat, |j: int| None::<u128>),
        decreases n - i,
    {
        v.push(None);
        i += 1;
        assert(v@ =~= Seq::new(i as nat, |j: int| None::<u128>));
    }
    v
}

impl UnackedMessage {
    /// A message to send in slices, none acknowledged or sent yet.
    fn new_sliced(payload: Bytes) -> (u: Self)
        requires
            bytes_view(payload).len() > SLICE_SIZE,
        ensures
            u.view() == new_unacked(bytes_view(payload)),
            u.view().wf(),
    {
        let len = bytes_len(&payload);
        let num_slices = (len + SLICE_SIZE - 1) / SLICE_SIZE;
        let acked = false_flags(num_slices);
        proof {
            crate::slice_constructor::lemma_count_true_all_false(acked@);
            assert(num_slices >= 1) by (nonlinear_arith)
                requires num_slices == (len + 1199) / 1200int, len > 1200;
        }
        UnackedMessage::Sliced {
            message: payload,
            num_slices,
            num_acked_slices: 0,
            next_slice_to_send: 0,
            acked,
            last_sent: unsent_times(num_slices),
        }
    }
}

/// The result of `send_message` and the channel afterwards: `message` is
/// queued under the next message id, unless its bytes would take the
/// memory in use over the limit; then the channel is left as it was and
/// `ReliableChannelMaxMemoryReached` is returned.
pub open spec fn send_message_spec(v: SendChannelView, message: Seq<u8>) -> (Result<(), ChannelError>, SendChannelView) {
    if v.memory_usage_bytes + message.len() > v.max_memory_usage_bytes {
        (Err(ChannelError::ReliableChannelMaxMemoryReached), v)
    } else {
        (
            Ok(()),
            SendChannelView {
                unacked: v.unacked.insert(v.next_reliable_message_id, new_unacked(message)),
                next_reliable_message_id: (v.next_reliable_message_id + 1) as u64,
                memory_usage_bytes: v.memory_usage_bytes + message.len(),
                ..v
            },
        )
    }
}

/// The channel after slice `slice_index` of message `id` is acknowledged:
/// nothing changes for an id that is not queued or a slice acknowledged
/// before; once every slice is acknowledged the message is dropped and its
/// bytes freed; else the slice is marked and counted.
pub open spec fn slice_ack_spec(v: SendChannelView, id: u64, slice_index: nat) -> SendChannelView {
    if !v.unacked.contains_key(id) || v.unacked[id]->acked[slice_index as int] {
        v
    } else {
        let u = v.unacked[id];
        let acked = u->acked.update(slice_index as int, true);
        if count_true(acked) == u->num_slices {
            SendChannelReliable::acked_state(v, id)
        } else {
            SendChannelView {
                unacked: v.unacked.insert(
                    id,
                    UnackedView::Sliced {
                        acked,
                        num_acked_slices: u->num_acked_slices + 1,
                        message: u->Sliced_message,
                        num_slices: u->num_slices,
                        next_slice_to_send: u->next_slice_to_send,
                        last_sent: u->Sliced_last_sent,
                    },
                ),
                ..v
            }
        }
    }
}

impl SendChannelReliable {
    /// The state with `id` acknowledged in full: the message is dropped and
    /// its bytes no longer count.
    pub open spec fn acked_state(v: SendChannelView, id: u64) -> SendChannelView {
        SendChannelView {
            unacked: v.unacked.remove(id),
            memory_usage_bytes: (v.memory_usage_bytes - v.unacked[id].message().len()) as nat,
            ..v
        }
    }

    /// Queues `message`, as `send_message_spec` describes.
    pub fn send_message(&mut self, message: Bytes) -> (r: Result<(), ChannelError>)
        requires
            old(self).wf(),
            old(self).view().next_reliable_message_id < u64::MAX,
        ensures
            final(self).wf(),
            (r, final(self).view()) == send_message_spec(old(self).view(), bytes_view(message)),
    {
        let len = bytes_len(&message);
        if len > self.max_memory_usage_bytes - self.memory_usage_bytes {
            return Err(ChannelError::ReliableChannelMaxMemoryReached);
        }
        let ghost old_v = self.view();
        self.memory_usage_bytes += len;
        let unacked_message = if len > SLICE_SIZE {
            UnackedMessage::new_sliced(message)
        } else {
            UnackedMessage::Small { message, last_sent: None }
        };
        let id = self.next_reliable_message_id;
        self.unacked_messages.insert(id, unacked_message);
        self.next_reliable_message_id += 1;
        proof {
            let v = self.view();
            assert(v.unacked =~= old_v.unacked.insert(id, new_unacked(bytes_view(message))));
            lemma_mem_sum_ext(v.unacked, old_v.unacked, id as int);
            assert(mem_sum(v.unacked, id + 1) == mem_sum(v.unacked, id as int) + len);
        }
        Ok(())
    }

    /// Whether `message_id`, if queued, is a small message, as
    /// `process_message_ack` needs.
    pub fn acks_small(&self, message_id: u64) -> (r: bool)
        ensures
            r == (self.view().unacked.contains_key(message_id) ==> self.view().unacked[message_id] is Small),
    {
        match self.unacked_messages.get(&message_id) {
            Some(UnackedMessage::Small { .. }) => true,
            Some(UnackedMessage::Sliced { .. }) => false,
            None => true,
        }
    }

    /// Whether `message_id`, if queued, is a sliced message with a slice
    /// `slice_index`, as `process_slice_message_ack` needs.
    pub fn acks_slice(&self, message_id: u64, slice_index: usize) -> (r: bool)
        ensures
            r == (self.view().unacked.contains_key(message_id) ==> {
                &&& self.view().unacked[message_id] is Sliced
                &&& slice_index < self.view().unacked[message_id]->num_slices
            }),
    {
        match self.unacked_messages.get(&message_id) {
            Some(UnackedMessage::Sliced { num_slices, .. }) => slice_index < *num_slices,
            Some(UnackedMessage::Small { .. }) => false,
            None => true,
        }
    }

    /// Acknowledges the small message `message_id`: it is dropped and its
    /// bytes freed. An id that is not queued changes nothing.
    pub fn process_message_ack(&mut self, message_id: u64)
        requires
            old(self).wf(),
            old(self).view().unacked.contains_key(message_id) ==> old(self).view().unacked[message_id] is Small,
        ensures
            final(self).wf(),
            old(self).view().unacked.contains_key(message_id) ==> final(self).view() == Self::acked_state(old(self).view(), message_id),
            !old(self).view().unacked.contains_key(message_id) ==> final(self).view() == old(self).view(),
    {
        if self.unacked_messages.contains_key(&message_id) {
            let ghost old_v = self.view();
            assert(old_v.unacked.contains_key(message_id));
            let unacked_message = self.unacked_messages.remove(&message_id).unwrap();
            match unacked_message {
                UnackedMessage::Small { message, .. } => {
                    proof {
                        lemma_mem_sum_remove(old_v.unacked, message_id, old_v.next_reliable_message_id as int);
                    }
                    self.memory_usage_bytes -= bytes_len(&message);
                },
                UnackedMessage::Sliced { .. } => {
                    proof {
                        assert(false);
                    }
                },
            }
            proof {
                assert(self.view().unacked =~= old_v.unacked.remove(message_id));
            }
        }
    }

    /// Acknowledges slice `slice_index` of the sliced message `message_id`.
    /// Once all its slices are acknowledged the message is dropped and its
    /// bytes freed. An id that is not queued, or a slice already
    /// acknowledged, changes nothing.
    pub fn process_slice_message_ack(&mut self, message_id: u64, slice_index: usize)
        requires
            old(self).wf(),
            old(self).view().unacked.contains_key(message_id) ==> {
                &&& old(self).view().unacked[message_id] is Sliced
                &&& slice_index < old(self).view().unacked[message_id]->num_slices
            },
        ensures
            final(self).wf(),
            final(self).view() == slice_ack_spec(old(self).view(), message_id, slice_index as nat),
    {
        if !self.unacked_messages.contains_key(&message_id) {
            return;
        }
        let ghost old_v = self.view();
        assert(old_v.unacked.contains_key(message_id));
        let unacked_message = self.unacked_messages.remove(&message_id).unwrap();
        match unacked_message {
            UnackedMessage::Sliced {
                message,
                num_slices,
                num_acked_slices,
                next_slice_to_send,
                mut acked,
                last_sent,
            } => {
                if acked[slice_index] {
                    self.unacked_messages.insert(
                        message_id,
                        UnackedMessage::Sliced {
                            message,
                            num_slices,
                            num_acked_slices,
                            next_slice_to_send,
                            acked,
                            last_sent,
                        },
                    );
                    proof {
                        assert(self.view().unacked =~= old_v.unacked);
                    }
                    return;
                }
                proof {
                    crate::slice_constructor::lemma_count_true_update(acked@, slice_index as int);
                }
                acked.set(slice_index, true);
                let num_acked_slices = num_acked_slices + 1;
                if num_acked_slices == num_slices {
                    proof {
                        lemma_mem_sum_remove(old_v.unacked, message_id, old_v.next_reliable_message_id as int);
                        assert(self.view().unacked =~= old_v.unacked.remove(message_id));
                    }
                    self.memory_usage_bytes -= bytes_len(&message);
                } else {
                    self.unacked_messages.insert(
                        message_id,
                        UnackedMessage::Sliced {
                            message,
                            num_slices,
                            num_acked_slices,
                            next_slice_to_send,
                            acked,
                            last_sent,
                        },
                    );
                    proof {
                        let v = self.view();
                        let u = old_v.unacked[message_id];
                        assert(v.unacked =~= old_v.unacked.insert(
                            message_id,
                            UnackedView::Sliced {
                                acked: u->acked.update(slice_index as int, true),
                                num_acked_slices: u->num_acked_slices + 1,
                                message: u->Sliced_message,
                                num_slices: u->num_slices,
                                next_slice_to_send: u->next_slice_to_send,
                                last_sent: u->Sliced_last_sent,
                            },
                        ));
                        lemma_mem_sum_ext(v.unacked, old_v.unacked, old_v.next_reliable_message_id as int);
                    }
                }
            },
            UnackedMessage::Small { .. } => {
                proof {
                    assert(false);
                }
            },
        }
    }
}

/// The state of a pass over the queued messages that picks what to send:
/// the packets made so far, the small messages waiting to fill a packet
/// (and their encoded size), the next packet sequence number, the bytes
/// still allowed, and the queued messages with their send times updated.
pub ghost struct SendScan {
    pub packets: Seq<PacketView>,
    pub small: Seq<(u64, Seq<u8>)>,
    pub small_bytes: nat,
    pub sequence: nat,
    pub available: nat,
    pub unacked: Map<u64, UnackedView>,
}

/// Sent at `last` and `resend` has not passed since, by `now`.
pub open spec fn sent_recently(now: u128, last: Option<u128>, resend: u128) -> bool {
    match last {
        Some(t) => now - t < resend,
        None => false,
    }
}

/// The encoded size of a small message with its id.
pub open spec fn small_size(id: u64, message: Seq<u8>) -> nat {
    (message.len() + spec_varint_len(message.len() as u64) + spec_varint_len(id)) as nat
}

/// The pass over small message `id`: skipped when the bytes allowed do not
/// cover it or it was sent recently; else added to the waiting small
/// messages (which first go out as a packet if it would not fit beside
/// them), its bytes taken from the allowance and its send time set to `now`.
pub open spec fn scan_small(
    channel_id: u8,
    resend: u128,
    now: u128,
    id: u64,
    message: Seq<u8>,
    last_sent: Option<u128>,
    st: SendScan,
) -> SendScan {
    if st.available < message.len() || sent_recently(now, last_sent, resend) {
        st
    } else {
        let size = small_size(id, message);
        let flush = st.small_bytes + size > SLICE_SIZE;
        SendScan {
            packets: if flush {
                st.packets.push(
                    PacketView::SmallReliable {
                        sequence: st.sequence,
                        channel_id,
                        messages: st.small,
                    },
                )
            } else {
                st.packets
            },
            small: if flush { seq![(id, message)] } else { st.small.push((id, message)) },
            small_bytes: if flush { size } else { st.small_bytes + size },
            sequence: if flush { st.sequence + 1 } else { st.sequence },
            available: (st.available - message.len()) as nat,
            unacked: st.unacked.insert(id, UnackedView::Small { message, last_sent: Some(now) }),
        }
    }
}

/// The bytes of slice `idx` of a message of `n` slices.
pub open spec fn slice_payload(message: Seq<u8>, n: nat, idx: nat) -> Seq<u8> {
    let begin = idx * SLICE_SIZE;
    let end = if idx == n - 1 {
        message.len() as int
    } else {
        (idx + 1) * SLICE_SIZE
    };
    message.subrange(begin as int, end)
}

/// The pass state while the slices of one message are gone through, with
/// that message's slice send times and next slice.
pub ghost struct SliceScan {
    pub st: SendScan,
    pub last_sent: Seq<Option<u128>>,
    pub next: nat,
}

/// The pass over the slices of message `id`, the `i`-th to the last,
/// starting from slice `start` and wrapping around: it stops when fewer
/// bytes than a slice are allowed; it skips acknowledged slices and those
/// sent recently; it sends every other slice as a packet of its own.
pub open spec fn scan_slices(
    channel_id: u8,
    resend: u128,
    now: u128,
    id: u64,
    message: Seq<u8>,
    n: nat,
    acked: Seq<bool>,
    start: nat,
    i: int,
    ss: SliceScan,
) -> SliceScan
    decreases n - i,
{
    if i >= n || i < 0 || ss.st.available < SLICE_SIZE {
        ss
    } else {
        let idx = ((start + i) % (n as int)) as nat;
        if acked[idx as int] || sent_recently(now, ss.last_sent[idx as int], resend) {
            scan_slices(channel_id, resend, now, id, message, n, acked, start, i + 1, ss)
        } else {
            let payload = slice_payload(message, n, idx);
            let st = SendScan {
                packets: ss.st.packets.push(
                    PacketView::ReliableSlice {
                        sequence: ss.st.sequence,
                        channel_id,
                        message_id: id,
                        slice_index: idx,
                        num_slices: n,
                        payload,
                    },
                ),
                sequence: ss.st.sequence + 1,
                available: (ss.st.available - payload.len()) as nat,
                ..ss.st
            };
            scan_slices(
                channel_id,
                resend,
                now,
                id,
                message,
                n,
                acked,
                start,
                i + 1,
                SliceScan {
                    st,
                    last_sent: ss.last_sent.update(idx as int, Some(now)),
                    next: (idx + 1nat % n) as nat,
                },
            )
        }
    }
}

/// The pass over queued message `id`.
pub open spec fn scan_one(channel_id: u8, resend: u128, now: u128, id: u64, st: SendScan) -> SendScan {
    match st.unacked[id] {
        UnackedView::Small { message, last_sent } => scan_small(
            channel_id,
            resend,
            now,
            id,
            message,
            last_sent,
            st,
        ),
        UnackedView::Sliced {
            message,
            num_slices,
            num_acked_slices,
            next_slice_to_send,
            acked,
            last_sent,
        } => {
            let ss = scan_slices(
                channel_id,
                resend,
                now,
                id,
                message,
                num_slices,
                acked,
                next_slice_to_send,
                0,
                SliceScan { st, last_sent, next: next_slice_to_send },
            );
            SendScan {
                unacked: ss.st.unacked.insert(
                    id,
                    UnackedView::Sliced {
                        message,
                        num_slices,
                        num_acked_slices,
                        next_slice_to_send: ss.next,
                        acked,
                        last_sent: ss.last_sent,
                    },
                ),
                ..ss.st
            }
        },
    }
}

/// The pass over the queued messages `keys[j..]`, in that order.
pub open spec fn scan_keys(
    channel_id: u8,
    resend: u128,
    now: u128,
    keys: Seq<u64>,
    j: int,
    st: SendScan,
) -> SendScan
    decreases keys.len() - j,
{
    if j >= keys.len() || j < 0 {
        st
    } else {
        scan_keys(channel_id, resend, now, keys, j + 1, scan_one(channel_id, resend, now, keys[j], st))
    }
}

/// The end of the pass: the waiting small messages go out as a last packet.
pub open spec fn scan_finish(channel_id: u8, st: SendScan) -> SendScan {
    if st.small.len() > 0 {
        SendScan {
            packets: st.packets.push(
                PacketView::SmallReliable { sequence: st.sequence, channel_id, messages: st.small },
            ),
            small: seq![],
            sequence: st.sequence + 1,
            ..st
        }
    } else {
        st
    }
}

/// The whole pass over the queued messages in the order `keys`, from packet
/// sequence number `sequence` with `available` bytes allowed, at time `now`.
pub open spec fn send_scan(v: SendChannelView, keys: Seq<u64>, sequence: nat, available: nat, now: u128) -> SendScan {
    scan_finish(
        v.channel_id,
        scan_keys(
            v.channel_id,
            v.resend_time,
            now,
            keys,
            0,
            SendScan {
                packets: seq![],
                small: seq![],
                small_bytes: 0,
                sequence,
                available,
                unacked: v.unacked,
            },
        ),
    )
}

/// The slice pass never lowers the sequence number and touches only the
/// packets, the sequence number and the allowance.
proof fn lemma_scan_slices_frame(
    channel_id: u8,
    resend: u128,
    now: u128,
    id: u64,
    message: Seq<u8>,
    n: nat,
    acked: Seq<bool>,
    start: nat,
    i: int,
    ss: SliceScan,
)
    ensures
        ({
            let r = scan_slices(channel_id, resend, now, id, message, n, acked, start, i, ss);
            &&& r.st.sequence >= ss.st.sequence
            &&& r.st.small == ss.st.small
            &&& r.st.small_bytes == ss.st.small_bytes
            &&& r.st.unacked == ss.st.unacked
        }),
    decreases n - i,
{
    if i >= n || i < 0 || ss.st.available < SLICE_SIZE {
    } else {
        let idx = ((start + i) % (n as int)) as nat;
        if acked[idx as int] || sent_recently(now, ss.last_sent[idx as int], resend) {
            lemma_scan_slices_frame(channel_id, resend, now, id, message, n, acked, start, i + 1, ss);
        } else {
            let payload = slice_payload(message, n, idx);
            let st = SendScan {
                packets: ss.st.packets.push(
                    PacketView::ReliableSlice {
                        sequence: ss.st.sequence,
                        channel_id,
                        message_id: id,
                        slice_index: idx,
                        num_slices: n,
                        payload,
                    },
                ),
                sequence: ss.st.sequence + 1,
                available: (ss.st.available - payload.len()) as nat,
                ..ss.st
            };
            lemma_scan_slices_frame(
                channel_id,
                resend,
                now,
                id,
                message,
                n,
                acked,
                start,
                i + 1,
                SliceScan {
                    st,
                    last_sent: ss.last_sent.update(idx as int, Some(now)),
                    next: (idx + 1nat % n) as nat,
                },
            );
        }
    }
}

proof fn lemma_scan_one_mono(channel_id: u8, resend: u128, now: u128, id: u64, st: SendScan)
    ensures
        scan_one(channel_id, resend, now, id, st).sequence >= st.sequence,
{
    match st.unacked[id] {
        UnackedView::Small { .. } => {},
        UnackedView::Sliced { message, num_slices, next_slice_to_send, acked, last_sent, .. } => {
            lemma_scan_slices_frame(
                channel_id,
                resend,
                now,
                id,
                message,
                num_slices,
                acked,
                next_slice_to_send,
                0,
                SliceScan { st, last_sent, next: next_slice_to_send },
            );
        },
    }
}

proof fn lemma_scan_keys_mono(channel_id: u8, resend: u128, now: u128, keys: Seq<u64>, j: int, st: SendScan)
    ensures
        scan_keys(channel_id, resend, now, keys, j, st).sequence >= st.sequence,
    decreases keys.len() - j,
{
    if j >= keys.len() || j < 0 {
    } else {
        lemma_scan_one_mono(channel_id, resend, now, keys[j], st);
        lemma_scan_keys_mono(channel_id, resend, now, keys, j + 1, scan_one(channel_id, resend, now, keys[j], st));
    }
}

/// Slice arithmetic of a message of `len` bytes in `n` slices.
proof fn lemma_slice_bounds(len: int, n: int)
    requires
        SLICE_SIZE < len <= isize::MAX,
        n == (len + SLICE_SIZE - 1) / (SLICE_SIZE as int),
    ensures
        2 <= n <= len,
        (n - 1) * SLICE_SIZE < len <= n * SLICE_SIZE,
        n * SLICE_SIZE <= len + SLICE_SIZE,
{
    assert(2 <= n <= len && (n - 1) * 1200 < len <= n * 1200 && n * 1200 <= len + 1200) by (nonlinear_arith)
        requires
            1200 < len,
            n == (len + 1199) / 1200,
    ;
}

/// The start, end and length of slice `idx`.
proof fn lemma_slice_range(len: int, n: int, idx: int)
    requires
        2 <= n,
        (n - 1) * SLICE_SIZE < len <= n * SLICE_SIZE,
        0 <= idx < n,
    ensures
        idx * SLICE_SIZE < len,
        idx < n - 1 ==> (idx + 1) * SLICE_SIZE <= (n - 1) * SLICE_SIZE,
        idx == n - 1 ==> len - idx * SLICE_SIZE <= SLICE_SIZE,
        (idx + 1) * SLICE_SIZE <= n * SLICE_SIZE,
{
    assert(idx * 1200 <= (n - 1) * 1200 && (idx < n - 1 ==> (idx + 1) * 1200 <= (n - 1) * 1200)
        && (idx + 1) * 1200 <= n * 1200) by (nonlinear_arith)
        requires
            0 <= idx < n,
    ;
}

/// Send times no later than `now`.
pub open spec fn times_before(times: Seq<Option<u128>>, now: u128) -> bool {
    forall|k: int| 0 <= k < times.len() ==> (#[trigger] times[k] matches Some(t) ==> t <= now)
}

/// Sends the due slices of one sliced message, as `scan_slices` describes.
fn send_slices(
    channel_id: u8,
    resend_time: u128,
    current_time: u128,
    message_id: u64,
    message: &Bytes,
    num_slices: usize,
    acked: &Vec<bool>,
    last_sent: &mut Vec<Option<u128>>,
    next_slice_to_send: &mut usize,
    packets: &mut Vec<Packet>,
    packet_sequence: &mut u64,
    available_bytes: &mut u64,
    Ghost(st): Ghost<SendScan>,
)
    requires
        SLICE_SIZE < bytes_view(*message).len() <= isize::MAX,
        num_slices == num_slices_for(bytes_view(*message).len()),
        acked@.len() == num_slices,
        old(last_sent)@.len() == num_slices,
        *old(next_slice_to_send) <= num_slices,
        times_before(old(last_sent)@, current_time),
        packets_view(old(packets)@) == st.packets,
        *old(packet_sequence) == st.sequence,
        *old(available_bytes) == st.available,
        scan_slices(
            channel_id,
            resend_time,
            current_time,
            message_id,
            bytes_view(*message),
            num_slices as nat,
            acked@,
            *old(next_slice_to_send) as nat,
            0,
            SliceScan { st, last_sent: old(last_sent)@, next: *old(next_slice_to_send) as nat },
        ).st.sequence <= u64::MAX,
    ensures
        ({
            let r = scan_slices(
                channel_id,
                resend_time,
                current_time,
                message_id,
                bytes_view(*message),
                num_slices as nat,
                acked@,
                *old(next_slice_to_send) as nat,
                0,
                SliceScan { st, last_sent: old(last_sent)@, next: *old(next_slice_to_send) as nat },
            );
            &&& packets_view(final(packets)@) == r.st.packets
            &&& *final(packet_sequence) == r.st.sequence
            &&& *final(available_bytes) == r.st.available
            &&& final(last_sent)@ == r.last_sent
            &&& *final(next_slice_to_send) == r.next
        }),
        final(last_sent)@.len() == num_slices,
        times_before(final(last_sent)@, current_time),
        *final(next_slice_to_send) <= num_slices,
{
    let ghost msg = bytes_view(*message);
    let ghost n = num_slices as nat;
    let ghost ss0 = SliceScan { st, last_sent: last_sent@, next: *next_slice_to_send as nat };
    let ghost goal = scan_slices(
        channel_id,
        resend_time,
        current_time,
        message_id,
        msg,
        n,
        acked@,
        *next_slice_to_send as nat,
        0,
        ss0,
    );
    let len = bytes_len(message);
    proof {
        lemma_slice_bounds(len as int, num_slices as int);
    }
    let start_index = *next_slice_to_send;
    let mut i: usize = 0;
    while i < num_slices && *available_bytes >= SLICE_SIZE as u64
        invariant
            i <= num_slices,
            msg == bytes_view(*message),
            len == msg.len(),
            n == num_slices,
            2 <= num_slices <= len,
            (num_slices - 1) * SLICE_SIZE < len <= num_slices * SLICE_SIZE,
            len <= isize::MAX,
            start_index <= num_slices,
            acked@.len() == num_slices,
            last_sent@.len() == num_slices,
            *next_slice_to_send <= num_slices,
            times_before(last_sent@, current_time),
            goal.st.sequence <= u64::MAX,
            scan_slices(
                channel_id,
                resend_time,
                current_time,
                message_id,
                msg,
                n,
                acked@,
                start_index as nat,
                i as int,
                SliceScan {
                    st: SendScan {
                        packets: packets_view(packets@),
                        sequence: *packet_sequence as nat,
                        available: *available_bytes as nat,
                        ..st
                    },
                    last_sent: last_sent@,
                    next: *next_slice_to_send as nat,
                },
            ) == goal,
        decreases num_slices - i,
    {
        let ghost ss = SliceScan {
            st: SendScan {
                packets: packets_view(packets@),
                sequence: *packet_sequence as nat,
                available: *available_bytes as nat,
                ..st
            },
            last_sent: last_sent@,
            next: *next_slice_to_send as nat,
        };
        let idx = (start_index + i) % num_slices;
        let recent = match last_sent[idx] {
            Some(t) => current_time - t < resend_time,
            None => false,
        };
        if !acked[idx] && !recent {
            proof {
                lemma_slice_range(len as int, num_slices as int, idx as int);
                assert(1usize % num_slices == 1) by (nonlinear_arith)
                    requires num_slices >= 2;
            }
            let start = idx * SLICE_SIZE;
            let end = if idx == num_slices - 1 {
                len
            } else {
                (idx + 1) * SLICE_SIZE
            };
            let payload = bytes_slice(message, start, end);
            let payload_len = bytes_len(&payload);
            let ghost pv = slice_payload(msg, n, idx as nat);
            assert(bytes_view(payload) == pv);
            let ghost next_st = SendScan {
                packets: ss.st.packets.push(
                    PacketView::ReliableSlice {
                        sequence: ss.st.sequence,
                        channel_id,
                        message_id,
                        slice_index: idx as nat,
                        num_slices: n,
                        payload: pv,
                    },
                ),
                sequence: ss.st.sequence + 1,
                available: (ss.st.available - pv.len()) as nat,
                ..ss.st
            };
            let ghost next_ss = SliceScan {
                st: next_st,
                last_sent: ss.last_sent.update(idx as int, Some(current_time)),
                next: (idx + 1nat % n) as nat,
            };
            proof {
                lemma_scan_slices_frame(
                    channel_id,
                    resend_time,
                    current_time,
                    message_id,
                    msg,
                    n,
                    acked@,
                    start_index as nat,
                    i + 1,
                    next_ss,
                );
            }
            *available_bytes -= payload_len as u64;
            packets.push(
                Packet::ReliableSlice {
                    sequence: *packet_sequence,
                    channel_id,
                    slice: Slice { message_id, slice_index: idx, num_slices, payload },
                },
            );
            *packet_sequence += 1;
            last_sent.set(idx, Some(current_time));
            *next_slice_to_send = idx + 1 % num_slices;
            proof {
                assert(packets_view(packets@) =~= next_st.packets);
            }
        }
        i += 1;
    }
}

/// Sends small message `message_id` if due, as `scan_small` describes, and
/// returns its new send time.
fn send_small(
    channel_id: u8,
    resend_time: u128,
    current_time: u128,
    message_id: u64,
    message: &Bytes,
    last_sent: Option<u128>,
    small_messages: &mut Vec<(u64, Bytes)>,
    small_messages_bytes: &mut usize,
    packets: &mut Vec<Packet>,
    packet_sequence: &mut u64,
    available_bytes: &mut u64,
    Ghost(st): Ghost<SendScan>,
) -> (new_last_sent: Option<u128>)
    requires
        bytes_view(*message).len() <= SLICE_SIZE,
        message_id <= VARINT_MAX,
        last_sent matches Some(t) ==> t <= current_time,
        packets_view(old(packets)@) == st.packets,
        messages_view(old(small_messages)@) == st.small,
        *old(small_messages_bytes) == st.small_bytes,
        st.small_bytes <= SLICE_SIZE + 10,
        *old(packet_sequence) == st.sequence,
        *old(available_bytes) == st.available,
        st.unacked.contains_key(message_id),
        st.unacked[message_id] == (UnackedView::Small { message: bytes_view(*message), last_sent }),
        scan_small(channel_id, resend_time, current_time, message_id, bytes_view(*message), last_sent, st).sequence <= u64::MAX,
    ensures
        ({
            let r = scan_small(channel_id, resend_time, current_time, message_id, bytes_view(*message), last_sent, st);
            &&& packets_view(final(packets)@) == r.packets
            &&& messages_view(final(small_messages)@) == r.small
            &&& *final(small_messages_bytes) == r.small_bytes
            &&& *final(packet_sequence) == r.sequence
            &&& *final(available_bytes) == r.available
            &&& r.unacked == st.unacked.insert(message_id, UnackedView::Small { message: bytes_view(*message), last_sent: new_last_sent })
            &&& r.small_bytes <= SLICE_SIZE + 10
        }),
        new_last_sent matches Some(t) ==> t <= current_time,
{
    let len = bytes_len(message);
    if *available_bytes < len as u64 {
        // Skip message, no bytes available to send this message
        proof {
            assert(st.unacked.insert(message_id, st.unacked[message_id]) =~= st.unacked);
        }
        return last_sent;
    }
    if let Some(t) = last_sent {
        if current_time - t < resend_time {
            proof {
                assert(st.unacked.insert(message_id, st.unacked[message_id]) =~= st.unacked);
            }
            return last_sent;
        }
    }
    *available_bytes -= len as u64;
    // Generate packet with small messages if you cannot fit
    let serialized_size = len + varint_len(len as u64) + varint_len(message_id);
    if *small_messages_bytes + serialized_size > SLICE_SIZE {
        let mut messages: Vec<(u64, Bytes)> = Vec::new();
        std::mem::swap(&mut messages, small_messages);
        packets.push(Packet::SmallReliable { sequence: *packet_sequence, channel_id, messages });
        *small_messages_bytes = 0;
        *packet_sequence += 1;
    }
    *small_messages_bytes += serialized_size;
    small_messages.push((message_id, bytes_clone(message)));
    proof {
        let r = scan_small(channel_id, resend_time, current_time, message_id, bytes_view(*message), last_sent, st);
        assert(packets_view(packets@) =~= r.packets);
        assert(messages_view(small_messages@) =~= r.small);
    }
    Some(current_time)
}

/// The queued messages are ready for a pass at time `now`: no send time
/// lies after `now`, and the ids of small messages fit a variable-length
/// integer.
pub open spec fn send_ready(v: SendChannelView, now: u128) -> bool {
    forall|id: u64| #[trigger] v.unacked.contains_key(id) ==> match v.unacked[id] {
        UnackedView::Small { last_sent, .. } => {
            &&& id <= VARINT_MAX
            &&& last_sent matches Some(t) ==> t <= now
        },
        UnackedView::Sliced { last_sent, .. } => times_before(last_sent, now),
    }
}

/// The pass changed only send times and next slices: the same ids, each
/// with the same message, kind and counters, well formed and ready.
pub open spec fn unacked_kept(m: Map<u64, UnackedView>, m0: Map<u64, UnackedView>, now: u128) -> bool {
    &&& m.dom() == m0.dom()
    &&& forall|id: u64| #[trigger] m.contains_key(id) ==> {
        &&& m[id].wf()
        &&& m[id].message() == m0[id].message()
        &&& (m[id] is Small <==> m0[id] is Small)
    }
    &&& send_ready(SendChannelView { unacked: m, channel_id: 0, next_reliable_message_id: 0, resend_time: 0, max_memory_usage_bytes: 0, memory_usage_bytes: 0 }, now)
}

impl SendChannelReliable {
    /// The pass state made of the values being built.
    spec fn scan_state(
        &self,
        packets: Seq<Packet>,
        small: Seq<(u64, Bytes)>,
        small_bytes: usize,
        sequence: u64,
        available: u64,
    ) -> SendScan {
        SendScan {
            packets: packets_view(packets),
            small: messages_view(small),
            small_bytes: small_bytes as nat,
            sequence: sequence as nat,
            available: available as nat,
            unacked: self.view().unacked,
        }
    }

    /// Picks the packets to send at `current_time`, within `available_bytes`,
    /// numbering them from `packet_sequence` on: the queued messages are gone
    /// through in order of id, as `send_scan` describes. Small messages that
    /// are due share packets; a sliced message sends its due slices, one per
    /// packet. Send times, next slices, the sequence number and the bytes
    /// still allowed are updated.
    pub fn get_packets_to_send(
        &mut self,
        packet_sequence: &mut u64,
        available_bytes: &mut u64,
        current_time: u128,
    ) -> (packets: Vec<Packet>)
        requires
            old(self).wf(),
            send_ready(old(self).view(), current_time),
            forall|keys: Seq<u64>|
                crate::ordered_keys::increasing_keys(keys, old(self).view().unacked.dom()) ==> #[trigger] send_scan(
                    old(self).view(),
                    keys,
                    *old(packet_sequence) as nat,
                    *old(available_bytes) as nat,
                    current_time,
                ).sequence <= u64::MAX,
        ensures
            final(self).wf(),
            exists|keys: Seq<u64>|
                {
                    let r = send_scan(
                        old(self).view(),
                        keys,
                        *old(packet_sequence) as nat,
                        *old(available_bytes) as nat,
                        current_time,
                    );
                    &&& #[trigger] crate::ordered_keys::increasing_keys(keys, old(self).view().unacked.dom())
                    &&& packets_view(packets@) == r.packets
                    &&& *final(packet_sequence) == r.sequence
                    &&& *final(available_bytes) == r.available
                    &&& final(self).view() == (SendChannelView { unacked: r.unacked, ..old(self).view() })
                },
    {
        let ghost v0 = self.view();
        let ghost seq0 = *packet_sequence as nat;
        let ghost avail0 = *available_bytes as nat;
        if self.unacked_messages.is_empty() {
            proof {
                let keys = Seq::<u64>::empty();
                assert(keys.to_set() =~= v0.unacked.dom());
                assert(crate::ordered_keys::increasing_keys(keys, v0.unacked.dom()));
                let r = send_scan(v0, keys, seq0, avail0, current_time);
                assert(packets_view(Seq::<Packet>::empty()) =~= r.packets);
            }
            return Vec::new();
        }
        let keys = crate::ordered_keys::sorted_keys(&self.unacked_messages);
        assert(keys@.to_set() == v0.unacked.dom());
        let channel_id = self.channel_id;
        let resend_time = self.resend_time;
        let mut packets: Vec<Packet> = Vec::new();
        let mut small_messages: Vec<(u64, Bytes)> = Vec::new();
        let mut small_messages_bytes: usize = 0;
        let ghost goal = send_scan(v0, keys@, seq0, avail0, current_time);
        proof {
            assert(packets_view(packets@) =~= Seq::<PacketView>::empty());
            assert(messages_view(small_messages@) =~= Seq::<(u64, Seq<u8>)>::empty());
            assert(self.scan_state(packets@, small_messages@, 0, *packet_sequence, *available_bytes) == SendScan {
                packets: seq![],
                small: seq![],
                small_bytes: 0,
                sequence: seq0,
                available: avail0,
                unacked: v0.unacked,
            });
        }
        let mut j: usize = 0;
        while j < keys.len()
            invariant
                j <= keys@.len(),
                crate::ordered_keys::increasing_keys(keys@, v0.unacked.dom()),
                goal == send_scan(v0, keys@, seq0, avail0, current_time),
                goal.sequence <= u64::MAX,
                channel_id == v0.channel_id,
                resend_time == v0.resend_time,
                self.view() == (SendChannelView { unacked: self.view().unacked, ..v0 }),
                unacked_kept(self.view().unacked, v0.unacked, current_time),
                small_messages_bytes <= SLICE_SIZE + 10,
                scan_finish(
                    channel_id,
                    scan_keys(
                        channel_id,
                        resend_time,
                        current_time,
                        keys@,
                        j as int,
                        self.scan_state(packets@, small_messages@, small_messages_bytes, *packet_sequence, *available_bytes),
                    ),
                ) == goal,
            decreases keys@.len() - j,
        {
            let message_id = keys[j];
            let ghost st = self.scan_state(packets@, small_messages@, small_messages_bytes, *packet_sequence, *available_bytes);
            let ghost m = self.view().unacked;
            proof {
                assert(keys@.to_set().contains(message_id));
                assert(m.contains_key(message_id));
                let nxt = scan_one(channel_id, resend_time, current_time, message_id, st);
                lemma_scan_keys_mono(channel_id, resend_time, current_time, keys@, j + 1, nxt);
                assert(goal == scan_finish(channel_id, scan_keys(channel_id, resend_time, current_time, keys@, j + 1, nxt)));
            }
            let unacked_message = self.unacked_messages.remove(&message_id).unwrap();
            match unacked_message {
                UnackedMessage::Small { message, last_sent } => {
                    let new_last_sent = send_small(
                        channel_id,
                        resend_time,
                        current_time,
                        message_id,
                        &message,
                        last_sent,
                        &mut small_messages,
                        &mut small_messages_bytes,
                        &mut packets,
                        packet_sequence,
                        available_bytes,
                        Ghost(st),
                    );
                    self.unacked_messages.insert(message_id, UnackedMessage::Small { message, last_sent: new_last_sent });
                    proof {
                        assert(self.view().unacked =~= m.insert(
                            message_id,
                            UnackedView::Small { message: bytes_view(message), last_sent: new_last_sent },
                        ));
                    }
                },
                UnackedMessage::Sliced {
                    message,
                    num_slices,
                    num_acked_slices,
                    mut next_slice_to_send,
                    acked,
                    mut last_sent,
                } => {
                    proof {
                        lemma_scan_slices_frame(
                            channel_id,
                            resend_time,
                            current_time,
                            message_id,
                            bytes_view(message),
                            num_slices as nat,
                            acked@,
                            next_slice_to_send as nat,
                            0,
                            SliceScan { st, last_sent: last_sent@, next: next_slice_to_send as nat },
                        );
                    }
                    send_slices(
                        channel_id,
                        resend_time,
                        current_time,
                        message_id,
                        &message,
                        num_slices,
                        &acked,
                        &mut last_sent,
                        &mut next_slice_to_send,
                        &mut packets,
                        packet_sequence,
                        available_bytes,
                        Ghost(st),
                    );
                    self.unacked_messages.insert(
                        message_id,
                        UnackedMessage::Sliced {
                            message,
                            num_slices,
                            num_acked_slices,
                            next_slice_to_send,
                            acked,
                            last_sent,
                        },
                    );
                    proof {
                        let u = UnackedMessage::Sliced {
                            message,
                            num_slices,
                            num_acked_slices,
                            next_slice_to_send,
                            acked,
                            last_sent,
                        };
                        assert(self.view().unacked =~= m.insert(message_id, u.view()));
                    }
                },
            }
            j += 1;
        }
        // Generate final packet for remaining small messages
        if small_messages.len() > 0 {
            let mut messages: Vec<(u64, Bytes)> = Vec::new();
            std::mem::swap(&mut messages, &mut small_messages);
            packets.push(Packet::SmallReliable { sequence: *packet_sequence, channel_id, messages });
            *packet_sequence += 1;
        }
        proof {
            let st = self.scan_state(packets@, small_messages@, small_messages_bytes, *packet_sequence, *available_bytes);
            assert(packets_view(packets@) =~= goal.packets);
            lemma_mem_sum_ext(self.view().unacked, v0.unacked, v0.next_reliable_message_id as int);
        }
        packets
    }
}

/// One more than the largest `u64`: the number of possible message ids.
pub open spec fn key_space() -> int {
    0x1_0000_0000_0000_0000
}

/// The sum of `f` over the entries with keys below `n`.
pub open spec fn map_sum<V>(m: Map<u64, V>, f: spec_fn(V) -> nat, n: int) -> nat
    decreases n,
{
    if n <= 0 {
        0
    } else {
        map_sum(m, f, n - 1) + if m.contains_key((n - 1) as u64) {
            f(m[(n - 1) as u64])
        } else {
            0
        }
    }
}

proof fn lemma_map_sum_ext<V>(m1: Map<u64, V>, m2: Map<u64, V>, f: spec_fn(V) -> nat, n: int)
    requires
        n <= key_space(),
        forall|i: u64| #![trigger m1.contains_key(i)] #![trigger m2.contains_key(i)]
            i < n ==> (m1.contains_key(i) <==> m2.contains_key(i)),
        forall|i: u64| #![trigger m1[i]] #![trigger m2[i]]
            i < n && m1.contains_key(i) ==> f(m1[i]) == f(m2[i]),
    ensures
        map_sum(m1, f, n) == map_sum(m2, f, n),
    decreases n,
{
    if n > 0 {
        lemma_map_sum_ext(m1, m2, f, n - 1);
        let k = (n - 1) as u64;
        assert(m1.contains_key(k) <==> m2.contains_key(k));
        if m1.contains_key(k) {
            assert(f(m1[k]) == f(m2[k]));
        }
    }
}

/// Removing an entry takes its share out of the sum; adding one puts it in.
pub(crate) proof fn lemma_map_sum_remove<V>(m: Map<u64, V>, f: spec_fn(V) -> nat, k: u64, n: int)
    requires
        n <= key_space(),
        m.contains_key(k),
        k < n,
    ensures
        map_sum(m.remove(k), f, n) + f(m[k]) == map_sum(m, f, n),
    decreases n,
{
    if n - 1 == k {
        lemma_map_sum_ext(m.remove(k), m, f, n - 1);
    } else {
        lemma_map_sum_remove(m, f, k, n - 1);
    }
}

pub(crate) proof fn lemma_map_sum_insert<V>(m: Map<u64, V>, f: spec_fn(V) -> nat, k: u64, v: V)
    requires
        !m.contains_key(k),
    ensures
        map_sum(m.insert(k, v), f, key_space()) == map_sum(m, f, key_space()) + f(v),
{
    let m2 = m.insert(k, v);
    lemma_map_sum_remove(m2, f, k, key_space());
    assert(m2.remove(k) =~= m);
}

/// The bytes of the messages waiting to be received.
pub open spec fn message_bytes(m: Map<u64, Seq<u8>>) -> nat {
    map_sum(m, |b: Seq<u8>| b.len(), key_space())
}

/// The bytes set aside for a message being reassembled: a full buffer of
/// `num_slices` slices, until its last slice has arrived.
pub open spec fn reserved(c: SliceConstructorView) -> nat {
    if c.num_received_slices < c.num_slices {
        (c.num_slices * SLICE_SIZE) as nat
    } else {
        0
    }
}

/// The bytes set aside for the messages being reassembled.
pub open spec fn slice_reservation(m: Map<u64, SliceConstructorView>) -> nat {
    map_sum(m, |c: SliceConstructorView| reserved(c), key_space())
}

/// How a receiving channel orders its messages.
pub enum ReliableOrder {
    /// Messages are received in order of message id.
    Ordered,
    /// Messages are received as they come; ids received ahead of the oldest
    /// pending one are remembered.
    Unordered { most_recent_message_id: u64, received_messages: BTreeSet<u64> },
}

/// The state of a receiving channel.
pub ghost struct ReceiveChannelView {
    pub slices: Map<u64, SliceConstructorView>,
    pub messages: Map<u64, Seq<u8>>,
    pub oldest_pending_message_id: u64,
    pub ordered: bool,
    pub most_recent_message_id: u64,
    pub received_messages: Set<u64>,
    pub memory_usage_bytes: nat,
    pub max_memory_usage_bytes: nat,
}

/// The receiving side of a reliable channel.
pub struct ReceiveChannelReliable {
    slices: HashMap<u64, SliceConstructor>,
    messages: BTreeMap<u64, Bytes>,
    oldest_pending_message_id: u64,
    reliable_order: ReliableOrder,
    memory_usage_bytes: usize,
    max_memory_usage_bytes: usize,
}

impl ReceiveChannelView {
    /// Every message being reassembled is well formed under its own id, and
    /// the memory in use covers the waiting messages and the reassembly buffers.
    pub open spec fn wf(self) -> bool {
        &&& forall|k: u64| #[trigger] self.slices.contains_key(k) ==> self.slices[k].wf() && self.slices[k].message_id == k
        &&& self.memory_usage_bytes >= message_bytes(self.messages) + slice_reservation(self.slices)
        &&& self.ordered ==> self.most_recent_message_id == 0 && self.received_messages == Set::<u64>::empty()
    }
}

/// The first id from `o` on that has not been received.
pub open spec fn next_missing(received: Set<u64>, o: u64) -> u64 {
    choose|o2: u64|
        o <= o2 && !received.contains(o2) && forall|k: u64| o <= k < o2 ==> #[trigger] received.contains(k)
}

/// The result of `process_message` and the channel afterwards. Ids below
/// the oldest pending one are ignored. An ordered channel keeps the first
/// message of each id; an unordered one also notes the most recent id and
/// the ids received. A new message adds its bytes to the memory in use; if
/// that goes over the limit, `ReliableChannelMaxMemoryReached` is returned
/// and the message dropped (the bytes stay counted).
pub open spec fn process_message_spec(v: ReceiveChannelView, message: Seq<u8>, message_id: u64) -> (
    Result<(), ChannelError>,
    ReceiveChannelView,
) {
    if message_id < v.oldest_pending_message_id {
        (Ok(()), v)
    } else {
        let most_recent = if v.ordered || message_id <= v.most_recent_message_id {
            v.most_recent_message_id
        } else {
            message_id
        };
        let seen = if v.ordered {
            v.messages.contains_key(message_id)
        } else {
            v.received_messages.contains(message_id)
        };
        let memory = v.memory_usage_bytes + message.len();
        if seen {
            (Ok(()), ReceiveChannelView { most_recent_message_id: most_recent, ..v })
        } else if v.max_memory_usage_bytes < memory {
            (
                Err(ChannelError::ReliableChannelMaxMemoryReached),
                ReceiveChannelView { most_recent_message_id: most_recent, memory_usage_bytes: memory, ..v },
            )
        } else {
            (
                Ok(()),
                ReceiveChannelView {
                    most_recent_message_id: most_recent,
                    memory_usage_bytes: memory,
                    messages: v.messages.insert(message_id, message),
                    received_messages: if v.ordered {
                        v.received_messages
                    } else {
                        v.received_messages.insert(message_id)
                    },
                    ..v
                },
            )
        }
    }
}

/// The result of `receive_message` and the channel afterwards. An ordered
/// channel hands out the message of the oldest pending id, if it has
/// arrived, and moves on to the next id. An unordered channel hands out the
/// message of the smallest id waiting; when that is the oldest pending id,
/// the oldest pending id moves past every id received in a row.
pub open spec fn receive_message_spec(v: ReceiveChannelView) -> (Option<Seq<u8>>, ReceiveChannelView) {
    if v.ordered {
        let id = v.oldest_pending_message_id;
        if v.messages.contains_key(id) {
            (
                Some(v.messages[id]),
                ReceiveChannelView {
                    messages: v.messages.remove(id),
                    oldest_pending_message_id: (id + 1) as u64,
                    memory_usage_bytes: (v.memory_usage_bytes - v.messages[id].len()) as nat,
                    ..v
                },
            )
        } else {
            (None, v)
        }
    } else if v.messages.dom().is_empty() {
        (None, v)
    } else {
        let id = choose|id: u64| #[trigger] v.messages.contains_key(id) && forall|j: u64| #[trigger] v.messages.contains_key(j) ==> id <= j;
        let o = v.oldest_pending_message_id;
        let o2 = if o == id { next_missing(v.received_messages, o) } else { o };
        (
            Some(v.messages[id]),
            ReceiveChannelView {
                messages: v.messages.remove(id),
                oldest_pending_message_id: o2,
                received_messages: v.received_messages.filter(|k: u64| !(o <= k < o2)),
                memory_usage_bytes: (v.memory_usage_bytes - v.messages[id].len()) as nat,
                ..v
            },
        )
    }
}

/// What `receive_message` needs to move past the ids it hands out
/// without running beyond the largest `u64`.
pub open spec fn receive_fits(v: ReceiveChannelView) -> bool {
    if v.ordered {
        v.messages.contains_key(v.oldest_pending_message_id) ==> v.oldest_pending_message_id < u64::MAX
    } else {
        v.messages.contains_key(v.oldest_pending_message_id) ==> exists|k: u64|
            v.oldest_pending_message_id <= k && !#[trigger] v.received_messages.contains(k)
    }
}

/// A constructor for message `id` of `n` slices, none received yet.
pub open spec fn fresh_constructor(id: u64, n: nat) -> SliceConstructorView {
    SliceConstructorView {
        message_id: id,
        num_slices: n,
        num_received_slices: 0,
        received: Seq::new(n, |i: int| false),
        sliced_data: Seq::new((n * SLICE_SIZE) as nat, |i: int| 0u8),
    }
}

/// What `process_slice` needs of a slice that is not ignored: a slice index
/// below the slice count, the same count as the slices received before
/// for that message, which is not complete yet, and room in a `usize` for
/// the buffer of a new message.
pub open spec fn slice_fits(v: ReceiveChannelView, id: u64, slice_index: nat, num_slices: nat) -> bool {
    if v.messages.contains_key(id) || id < v.oldest_pending_message_id {
        true
    } else if v.slices.contains_key(id) {
        &&& v.slices[id].num_slices == num_slices
        &&& slice_index < num_slices
        &&& v.slices[id].num_received_slices < num_slices
    } else {
        &&& 1 <= num_slices
        &&& slice_index < num_slices
        &&& v.memory_usage_bytes + num_slices * SLICE_SIZE <= usize::MAX
    }
}

/// The result of `process_slice` and the channel afterwards. A slice of a
/// message already assembled, or of an id below the oldest pending one, is
/// ignored. The first slice of a message sets aside a full buffer of
/// `num_slices` slices (refused with `ReliableChannelMaxMemoryReached`,
/// the bytes staying counted, when that goes over the limit). The slice
/// goes to the message's constructor; when that completes the message, the
/// buffer is given back and the message taken in as `process_message_spec`
/// describes, after which the constructor is dropped.
pub open spec fn process_slice_channel_spec(
    v: ReceiveChannelView,
    id: u64,
    slice_index: nat,
    num_slices: nat,
    payload: Seq<u8>,
) -> (Result<(), ChannelError>, ReceiveChannelView) {
    if v.messages.contains_key(id) || id < v.oldest_pending_message_id {
        (Ok(()), v)
    } else {
        let fresh = !v.slices.contains_key(id);
        let memory = if fresh {
            v.memory_usage_bytes + num_slices * SLICE_SIZE
        } else {
            v.memory_usage_bytes as int
        };
        if fresh && v.max_memory_usage_bytes < memory {
            (
                Err(ChannelError::ReliableChannelMaxMemoryReached),
                ReceiveChannelView { memory_usage_bytes: memory as nat, ..v },
            )
        } else {
            let c = if fresh { fresh_constructor(id, num_slices) } else { v.slices[id] };
            let (r, c2) = process_slice_spec(c, slice_index, payload);
            let v1 = ReceiveChannelView {
                memory_usage_bytes: memory as nat,
                slices: v.slices.insert(id, c2),
                ..v
            };
            match r {
                Err(e) => (Err(e), v1),
                Ok(None) => (Ok(()), v1),
                Ok(Some(m)) => {
                    let v2 = ReceiveChannelView {
                        memory_usage_bytes: (memory - num_slices * SLICE_SIZE) as nat,
                        ..v1
                    };
                    let (r2, v3) = process_message_spec(v2, m, id);
                    match r2 {
                        Err(e) => (Err(e), v3),
                        Ok(_) => (Ok(()), ReceiveChannelView { slices: v3.slices.remove(id), ..v3 }),
                    }
                },
            }
        }
    }
}

/// The bytes of a received message, if any.
pub open spec fn option_bytes_view(r: Option<Bytes>) -> Option<Seq<u8>> {
    match r {
        Some(b) => Some(bytes_view(b)),
        None => None,
    }
}

impl ReceiveChannelReliable {
    pub closed spec fn view(&self) -> ReceiveChannelView {
        ReceiveChannelView {
            slices: self.slices@.map_values(|c: SliceConstructor| c.view()),
            messages: self.messages@.map_values(|b: Bytes| bytes_view(b)),
            oldest_pending_message_id: self.oldest_pending_message_id,
            ordered: self.reliable_order is Ordered,
            most_recent_message_id: match self.reliable_order {
                ReliableOrder::Unordered { most_recent_message_id, .. } => most_recent_message_id,
                ReliableOrder::Ordered => 0,
            },
            received_messages: match self.reliable_order {
                ReliableOrder::Unordered { received_messages, .. } => received_messages@,
                ReliableOrder::Ordered => Set::empty(),
            },
            memory_usage_bytes: self.memory_usage_bytes as nat,
            max_memory_usage_bytes: self.max_memory_usage_bytes as nat,
        }
    }

    /// See `ReceiveChannelView::wf`.
    pub open spec fn wf(&self) -> bool {
        self.view().wf()
    }

    /// An empty channel, ordered or not, with nothing received.
    pub fn new(max_memory_usage_bytes: usize, ordered: bool) -> (ch: Self)
        ensures
            ch.wf(),
            ch.view() == (ReceiveChannelView {
                slices: Map::empty(),
                messages: Map::empty(),
                oldest_pending_message_id: 0,
                ordered,
                most_recent_message_id: 0,
                received_messages: Set::empty(),
                memory_usage_bytes: 0,
                max_memory_usage_bytes: max_memory_usage_bytes as nat,
            }),
    {
        let reliable_order = match ordered {
            true => ReliableOrder::Ordered,
            false => ReliableOrder::Unordered {
                most_recent_message_id: 0,
                received_messages: BTreeSet::new(),
            },
        };
        let ch = Self {
            slices: HashMap::new(),
            messages: BTreeMap::new(),
            oldest_pending_message_id: 0,
            reliable_order,
            memory_usage_bytes: 0,
            max_memory_usage_bytes,
        };
        proof {
            let v = ch.view();
            assert(v.slices =~= Map::empty());
            assert(v.messages =~= Map::empty());
            lemma_map_sum_ext(v.messages, Map::empty(), |b: Seq<u8>| b.len(), key_space());
            lemma_map_sum_ext(v.slices, Map::empty(), |c: SliceConstructorView| reserved(c), key_space());
            lemma_map_sum_empty(|b: Seq<u8>| b.len(), key_space());
            lemma_map_sum_empty(|c: SliceConstructorView| reserved(c), key_space());
        }
        ch
    }

    /// Takes in message `message_id`, as `process_message_spec` describes.
    pub fn process_message(&mut self, message: Bytes, message_id: u64) -> (r: Result<(), ChannelError>)
        requires
            old(self).wf(),
            old(self).view().memory_usage_bytes + bytes_view(message).len() <= usize::MAX,
        ensures
            final(self).wf(),
            (r, final(self).view()) == process_message_spec(old(self).view(), bytes_view(message), message_id),
    {
        let ghost v0 = self.view();
        if message_id < self.oldest_pending_message_id {
            // Discard old message already received
            return Ok(());
        }
        let len = bytes_len(&message);
        match &mut self.reliable_order {
            ReliableOrder::Ordered => {
                if !self.messages.contains_key(&message_id) {
                    self.memory_usage_bytes += len;
                    if self.max_memory_usage_bytes < self.memory_usage_bytes {
                        return Err(ChannelError::ReliableChannelMaxMemoryReached);
                    }
                    self.messages.insert(message_id, message);
                    proof {
                        lemma_map_sum_insert(v0.messages, |b: Seq<u8>| b.len(), message_id, bytes_view(message));
                        assert(self.view().messages =~= v0.messages.insert(message_id, bytes_view(message)));
                    }
                }
            },
            ReliableOrder::Unordered { most_recent_message_id, received_messages } => {
                if *most_recent_message_id < message_id {
                    *most_recent_message_id = message_id;
                }
                if !received_messages.contains(&message_id) {
                    self.memory_usage_bytes += len;
                    if self.max_memory_usage_bytes < self.memory_usage_bytes {
                        return Err(ChannelError::ReliableChannelMaxMemoryReached);
                    }
                    received_messages.insert(message_id);
                    let ghost had = v0.messages.contains_key(message_id);
                    self.messages.insert(message_id, message);
                    proof {
                        if had {
                            lemma_map_sum_remove(v0.messages, |b: Seq<u8>| b.len(), message_id, key_space());
                            lemma_map_sum_insert(v0.messages.remove(message_id), |b: Seq<u8>| b.len(), message_id, bytes_view(message));
                            assert(v0.messages.remove(message_id).insert(message_id, bytes_view(message)) =~= v0.messages.insert(message_id, bytes_view(message)));
                        } else {
                            lemma_map_sum_insert(v0.messages, |b: Seq<u8>| b.len(), message_id, bytes_view(message));
                        }
                        assert(self.view().messages =~= v0.messages.insert(message_id, bytes_view(message)));
                    }
                }
            },
        }
        Ok(())
    }

    /// Takes in one slice of a large message, as `process_slice_channel_spec`
    /// describes.
    pub fn process_slice(&mut self, slice: Slice) -> (r: Result<(), ChannelError>)
        requires
            old(self).wf(),
            slice_fits(old(self).view(), slice.message_id, slice.slice_index as nat, slice.num_slices as nat),
        ensures
            final(self).wf(),
            (r, final(self).view()) == process_slice_channel_spec(
                old(self).view(),
                slice.message_id,
                slice.slice_index as nat,
                slice.num_slices as nat,
                bytes_view(slice.payload),
            ),
    {
        let ghost v0 = self.view();
        let ghost s0 = self.slices@;
        let ghost g = |c: SliceConstructorView| reserved(c);
        let id = slice.message_id;
        if self.messages.contains_key(&id) || id < self.oldest_pending_message_id {
            // Message already assembled
            return Ok(());
        }
        let fresh = !self.slices.contains_key(&id);
        if fresh {
            self.memory_usage_bytes += slice.num_slices * SLICE_SIZE;
            if self.max_memory_usage_bytes < self.memory_usage_bytes {
                return Err(ChannelError::ReliableChannelMaxMemoryReached);
            }
        }
        let ghost others = slice_reservation(v0.slices.remove(id));
        proof {
            if !fresh {
                lemma_map_sum_remove(v0.slices, g, id, key_space());
            } else {
                assert(v0.slices.remove(id) =~= v0.slices);
            }
            assert(self.memory_usage_bytes >= message_bytes(v0.messages) + others + slice.num_slices * SLICE_SIZE);
        }
        let taken = self.slices.remove(&id);
        let mut constructor = match taken {
            Some(c) => c,
            None => SliceConstructor::new(id, slice.num_slices),
        };
        let ghost c = constructor.view();
        let result = constructor.process_slice(slice.slice_index, &slice.payload);
        let ghost c2 = constructor.view();
        self.slices.insert(id, constructor);
        proof {
            assert(c.num_received_slices < c.num_slices);
            assert(self.view().slices =~= v0.slices.insert(id, c2));
            lemma_map_sum_insert(v0.slices.remove(id), g, id, c2);
            assert(v0.slices.remove(id).insert(id, c2) =~= v0.slices.insert(id, c2));
            assert(reserved(c2) <= slice.num_slices * SLICE_SIZE);
        }
        match result {
            Err(e) => Err(e),
            Ok(None) => Ok(()),
            Ok(Some(message)) => {
                proof {
                    lemma_data_after_len(c, slice.slice_index as nat, bytes_view(slice.payload));
                }
                // Memory usage is taken up again with the exact message size
                self.memory_usage_bytes -= slice.num_slices * SLICE_SIZE;
                let received = self.process_message(message, id);
                if let Err(e) = received {
                    return Err(e);
                }
                let ghost v3 = self.view();
                self.slices.remove(&id);
                proof {
                    lemma_map_sum_remove(v3.slices, g, id, key_space());
                    assert(self.view().slices =~= v3.slices.remove(id));
                }
                Ok(())
            },
        }
    }

    /// Whether `process_message` may take `message`: the memory in use plus
    /// its bytes must be countable.
    pub fn message_fits(&self, message: &Bytes) -> (r: bool)
        ensures
            r == (self.view().memory_usage_bytes + bytes_view(*message).len() <= usize::MAX),
    {
        bytes_len(message) <= usize::MAX - self.memory_usage_bytes
    }

    /// Whether `process_slice` may take slice `slice_index` of `num_slices`
    /// of message `message_id`, as `slice_fits` describes.
    pub fn slice_fits_here(&self, message_id: u64, slice_index: usize, num_slices: usize) -> (r: bool)
        requires
            self.wf(),
        ensures
            r == slice_fits(self.view(), message_id, slice_index as nat, num_slices as nat),
    {
        if self.messages.contains_key(&message_id) || message_id < self.oldest_pending_message_id {
            return true;
        }
        match self.slices.get(&message_id) {
            Some(c) => c.num_slices() == num_slices && slice_index < num_slices && c.num_received_slices()
                < num_slices,
            None => {
                let room = usize::MAX - self.memory_usage_bytes;
                let fits = num_slices <= room / SLICE_SIZE;
                proof {
                    assert(fits <==> num_slices * SLICE_SIZE <= room) by (nonlinear_arith)
                        requires
                            fits == (num_slices <= room / 1200),
                            SLICE_SIZE == 1200,
                            room >= 0,
                    ;
                }
                1 <= num_slices && slice_index < num_slices && fits
            },
        }
    }

    /// A test that suffices for `receive_message`: the next message can be
    /// handed out when the oldest pending id is not waiting, or, on an
    /// ordered channel, is below `u64::MAX`, or, on an unordered one, id
    /// `u64::MAX` has not been received.
    pub fn can_receive(&self) -> (r: bool)
        ensures
            r ==> receive_fits(self.view()),
            self.view().ordered ==> (r == receive_fits(self.view())),
    {
        if !self.messages.contains_key(&self.oldest_pending_message_id) {
            return true;
        }
        match &self.reliable_order {
            ReliableOrder::Ordered => self.oldest_pending_message_id < u64::MAX,
            ReliableOrder::Unordered { received_messages, .. } => {
                let r = !received_messages.contains(&u64::MAX);
                proof {
                    if r {
                        assert(!self.view().received_messages.contains(u64::MAX));
                    }
                }
                r
            },
        }
    }

    /// Hands out the next message, as `receive_message_spec` describes.
    pub fn receive_message(&mut self) -> (r: Option<Bytes>)
        requires
            old(self).wf(),
            receive_fits(old(self).view()),
        ensures
            final(self).wf(),
            (option_bytes_view(r), final(self).view()) == receive_message_spec(old(self).view()),
    {
        let ghost v0 = self.view();
        let ghost m0 = self.messages@;
        let ghost s0 = self.slices@;
        let ghost f = |b: Seq<u8>| b.len();
        let mut order = ReliableOrder::Ordered;
        std::mem::swap(&mut order, &mut self.reliable_order);
        match order {
            ReliableOrder::Ordered => {
                let id = self.oldest_pending_message_id;
                let removed = self.messages.remove(&id);
                let Some(message) = removed else {
                    proof {
                        assert(self.messages@ =~= m0);
                        assert(self.view() == v0);
                    }
                    return None;
                };
                proof {
                    lemma_map_sum_remove(v0.messages, f, id, key_space());
                    assert(self.view().messages =~= v0.messages.remove(id));
                }
                self.oldest_pending_message_id = id + 1;
                let len = bytes_len(&message);
                self.memory_usage_bytes = self.memory_usage_bytes - len;
                proof {
                    let v1 = self.view();
                    assert(v1.slices == v0.slices);
                    assert(v1.ordered);
                    assert(v1.received_messages == v0.received_messages);
                    assert(v1.memory_usage_bytes >= message_bytes(v1.messages) + slice_reservation(v1.slices));
                }
                Some(message)
            },
            ReliableOrder::Unordered { most_recent_message_id, mut received_messages } => {
                let first = first_key(&self.messages);
                let Some(id) = first else {
                    self.reliable_order = ReliableOrder::Unordered { most_recent_message_id, received_messages };
                    proof {
                        assert(v0.messages.dom() =~= self.messages@.dom());
                    }
                    return None;
                };
                proof {
                    assert(v0.messages.contains_key(id));
                    assert forall|j: u64| #[trigger] v0.messages.contains_key(j) implies id <= j by {
                        assert(self.messages@.contains_key(j));
                    }
                    let c = choose|c: u64| #[trigger] v0.messages.contains_key(c) && forall|j: u64| #[trigger] v0.messages.contains_key(j) ==> c <= j;
                    assert(v0.messages.contains_key(c) && forall|j: u64| #[trigger] v0.messages.contains_key(j) ==> c <= j);
                    assert(c <= id && id <= c);
                }
                let removed = self.messages.remove(&id);
                let Some(message) = removed else {
                    proof {
                        assert(false);
                    }
                    return None;
                };
                let ghost o = self.oldest_pending_message_id;
                let ghost r0 = received_messages@;
                if self.oldest_pending_message_id == id {
                    // Move past every id received in a row from here on.
                    let ghost w = choose|k: u64| o <= k && !r0.contains(k);
                    while received_messages.contains(&self.oldest_pending_message_id)
                        invariant
                            self.messages@ == m0.remove(id),
                            self.slices@ == s0,
                            self.memory_usage_bytes == v0.memory_usage_bytes,
                            self.max_memory_usage_bytes == v0.max_memory_usage_bytes,
                            o <= self.oldest_pending_message_id <= w,
                            !r0.contains(w),
                            forall|k: u64| o <= k < self.oldest_pending_message_id ==> #[trigger] r0.contains(k),
                            received_messages@ == r0.filter(|k: u64| !(o <= k < self.oldest_pending_message_id)),
                        decreases w - self.oldest_pending_message_id,
                    {
                        let ghost cur = self.oldest_pending_message_id;
                        received_messages.remove(&self.oldest_pending_message_id);
                        self.oldest_pending_message_id = self.oldest_pending_message_id + 1;
                        proof {
                            assert(r0.contains(cur));
                            assert(received_messages@ =~= r0.filter(|k: u64| !(o <= k < self.oldest_pending_message_id)));
                        }
                    }
                    proof {
                        let cur = self.oldest_pending_message_id;
                        let m = next_missing(r0, o);
                        assert(o <= cur && !r0.contains(cur) && forall|k: u64| o <= k < cur ==> #[trigger] r0.contains(k));
                        assert(o <= m && !r0.contains(m) && forall|k: u64| o <= k < m ==> #[trigger] r0.contains(k));
                        if m < cur {
                            assert(r0.contains(m));
                        }
                        if cur < m {
                            assert(r0.contains(cur));
                        }
                    }
                } else {
                    proof {
                        assert(received_messages@ =~= r0.filter(|k: u64| !(o <= k < o)));
                    }
                }
                self.reliable_order = ReliableOrder::Unordered { most_recent_message_id, received_messages };
                proof {
                    lemma_map_sum_remove(v0.messages, f, id, key_space());
                    assert(self.view().messages =~= v0.messages.remove(id));
                }
                let len = bytes_len(&message);
                self.memory_usage_bytes = self.memory_usage_bytes - len;
                Some(message)
            },
        }
    }
}

pub(crate) proof fn lemma_map_sum_empty<V>(f: spec_fn(V) -> nat, n: int)
    ensures
        map_sum(Map::<u64, V>::empty(), f, n) == 0,
    decreases n,
{
    if n > 0 {
        lemma_map_sum_empty(f, n - 1);
    }
}

} // verus!
