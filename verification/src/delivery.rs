//! What the reliable channels promise across several operations.

use vstd::prelude::*;
use crate::packet::{ChannelError, PacketView, SLICE_SIZE};
use crate::ordered_keys::increasing_keys;
use crate::reliable::{
    ReceiveChannelView, SendChannelView, SendChannelReliable, SendScan, SliceScan, UnackedView, process_message_spec,
    receive_message_spec, send_message_spec, new_unacked, scan_slices, scan_one, scan_keys, scan_finish, send_scan,
    sent_recently, slice_payload, slice_ack_spec, small_size, message_bytes, key_space, lemma_map_sum_empty,
    lemma_map_sum_insert, lemma_map_sum_remove, num_slices_for, scan_small, receive_fits, next_missing,
};
use crate::slice_constructor::{count_true, lemma_count_true_all, lemma_count_true_update};

verus! {

/// A message queued by `send_message` and then acknowledged leaves nothing
/// behind: the queue and the memory in use are as before the send, and only
/// the next message id has moved on.
pub proof fn lemma_send_then_ack(v: SendChannelView, message: Seq<u8>)
    requires
        !v.unacked.contains_key(v.next_reliable_message_id),
        v.memory_usage_bytes + message.len() <= v.max_memory_usage_bytes,
    ensures
        ({
            let (r, v1) = send_message_spec(v, message);
            let id = v.next_reliable_message_id;
            &&& r is Ok
            &&& v1.unacked.contains_key(id)
            &&& v1.unacked[id] == new_unacked(message)
            &&& SendChannelReliable::acked_state(v1, id) == SendChannelView {
                next_reliable_message_id: (id + 1) as u64,
                ..v
            }
        }),
{
    let v1 = send_message_spec(v, message).1;
    let id = v.next_reliable_message_id;
    assert(v1.unacked.remove(id) =~= v.unacked);
    assert(new_unacked(message).message() == message);
}

/// A send refused for want of memory changes nothing.
pub proof fn lemma_send_refused(v: SendChannelView, message: Seq<u8>)
    requires
        v.memory_usage_bytes + message.len() > v.max_memory_usage_bytes,
    ensures
        send_message_spec(v, message) == (Err::<(), ChannelError>(ChannelError::ReliableChannelMaxMemoryReached), v),
{
}

/// On an ordered channel, the message that arrives under the oldest pending
/// id is the next one received, after which the channel waits for the
/// following id and holds what it held before.
pub proof fn lemma_ordered_delivery(v: ReceiveChannelView, message: Seq<u8>)
    requires
        v.ordered,
        !v.messages.contains_key(v.oldest_pending_message_id),
        v.memory_usage_bytes + message.len() <= v.max_memory_usage_bytes,
        v.oldest_pending_message_id < u64::MAX,
    ensures
        ({
            let id = v.oldest_pending_message_id;
            let (r, v1) = process_message_spec(v, message, id);
            let (m, v2) = receive_message_spec(v1);
            &&& r is Ok
            &&& m == Some(message)
            &&& v2 == ReceiveChannelView { oldest_pending_message_id: (id + 1) as u64, ..v }
        }),
{
    let id = v.oldest_pending_message_id;
    let v1 = process_message_spec(v, message, id).1;
    assert(v1.messages.remove(id) =~= v.messages);
}

/// On an ordered channel nothing is received while the message of the
/// oldest pending id is missing, whatever else has arrived.
pub proof fn lemma_ordered_waits(v: ReceiveChannelView)
    requires
        v.ordered,
        !v.messages.contains_key(v.oldest_pending_message_id),
    ensures
        receive_message_spec(v) == (None::<Seq<u8>>, v),
{
}

/// A message whose id is below the oldest pending one was already received:
/// taking it in again changes nothing.
pub proof fn lemma_old_message_ignored(v: ReceiveChannelView, message: Seq<u8>, id: u64)
    requires
        id < v.oldest_pending_message_id,
    ensures
        process_message_spec(v, message, id) == (Ok::<(), ChannelError>(()), v),
{
}

/// A message taken in twice is kept once: the second copy changes neither
/// the messages waiting nor the memory in use.
pub proof fn lemma_duplicate_ignored(v: ReceiveChannelView, message: Seq<u8>, again: Seq<u8>, id: u64)
    requires
        v.max_memory_usage_bytes >= v.memory_usage_bytes + message.len(),
        !v.messages.contains_key(id),
        !v.received_messages.contains(id),
        v.ordered ==> v.received_messages == Set::<u64>::empty(),
    ensures
        ({
            let (r1, v1) = process_message_spec(v, message, id);
            let (r2, v2) = process_message_spec(v1, again, id);
            &&& r2 is Ok
            &&& v2.messages == v1.messages
            &&& v2.memory_usage_bytes == v1.memory_usage_bytes
        }),
{
}

/// Once the message of an id has been received on an ordered channel, a
/// copy of it that arrives later is ignored.
pub proof fn lemma_received_once(v: ReceiveChannelView, again: Seq<u8>)
    requires
        v.ordered,
        v.messages.contains_key(v.oldest_pending_message_id),
        v.oldest_pending_message_id < u64::MAX,
    ensures
        ({
            let id = v.oldest_pending_message_id;
            let v1 = receive_message_spec(v).1;
            process_message_spec(v1, again, id) == (Ok::<(), ChannelError>(()), v1)
        }),
{
}

/// An unordered channel hands out the waiting message with the smallest id.
pub proof fn lemma_unordered_smallest_first(v: ReceiveChannelView, id: u64)
    requires
        !v.ordered,
        v.messages.contains_key(id),
        forall|j: u64| #[trigger] v.messages.contains_key(j) ==> id <= j,
    ensures
        ({
            let (m, v1) = receive_message_spec(v);
            &&& m == Some(v.messages[id])
            &&& v1.messages == v.messages.remove(id)
        }),
{
    assert(!v.messages.dom().is_empty()) by {
        assert(v.messages.dom().contains(id));
    }
    let c = choose|c: u64| #[trigger] v.messages.contains_key(c) && forall|j: u64| #[trigger] v.messages.contains_key(j) ==> c <= j;
    assert(v.messages.contains_key(c) && forall|j: u64| #[trigger] v.messages.contains_key(j) ==> c <= j);
    assert(c <= id && id <= c);
}

/// Whether a packet carries message `id`, whole or as a slice.
pub open spec fn carries(p: PacketView, id: u64) -> bool {
    match p {
        PacketView::SmallReliable { messages, .. } => exists|i: int| 0 <= i < messages.len() && messages[i].0 == id,
        PacketView::ReliableSlice { message_id, .. } => message_id == id,
    }
}

/// The packets made and the small messages waiting in a pass carry only
/// ids of `d`.
spec fn only_ids(st: SendScan, d: Set<u64>) -> bool {
    &&& forall|i: int, id: u64| 0 <= i < st.packets.len() && #[trigger] carries(st.packets[i], id) ==> d.contains(id)
    &&& forall|i: int| 0 <= i < st.small.len() ==> d.contains(#[trigger] st.small[i].0)
}

proof fn lemma_slices_only(
    channel_id: u8,
    resend: u128,
    now: u128,
    id: u64,
    message: Seq<u8>,
    n: nat,
    acked: Seq<bool>,
    start: nat,
    i: int,
    ss: SliceScan,
    d: Set<u64>,
)
    requires
        only_ids(ss.st, d),
        d.contains(id),
    ensures
        only_ids(scan_slices(channel_id, resend, now, id, message, n, acked, start, i, ss).st, d),
    decreases n - i,
{
    if i >= n || i < 0 || ss.st.available < SLICE_SIZE {
    } else {
        let idx = ((start + i) % (n as int)) as nat;
        if acked[idx as int] || sent_recently(now, ss.last_sent[idx as int], resend) {
            lemma_slices_only(channel_id, resend, now, id, message, n, acked, start, i + 1, ss, d);
        } else {
            let payload = slice_payload(message, n, idx);
            let st = SendScan {
                packets: ss.st.packets.push(
                    PacketView::ReliableSlice {
                        sequence: ss.st.sequence,
                        channel_id,
                        message_id: id,
                        slice_index: idx,
                        num_slices: n,
                        payload,
                    },
                ),
                sequence: ss.st.sequence + 1,
                available: (ss.st.available - payload.len()) as nat,
                ..ss.st
            };
            assert forall|k: int, x: u64| 0 <= k < st.packets.len() && #[trigger] carries(st.packets[k], x) implies d.contains(x) by {
                if k < ss.st.packets.len() {
                    assert(st.packets[k] == ss.st.packets[k]);
                }
            }
            lemma_slices_only(
                channel_id,
                resend,
                now,
                id,
                message,
                n,
                acked,
                start,
                i + 1,
                SliceScan { st, last_sent: ss.last_sent.update(idx as int, Some(now)), next: (idx + 1nat % n) as nat },
                d,
            );
        }
    }
}

proof fn lemma_one_only(channel_id: u8, resend: u128, now: u128, id: u64, st: SendScan, d: Set<u64>)
    requires
        only_ids(st, d),
        d.contains(id),
    ensures
        only_ids(scan_one(channel_id, resend, now, id, st), d),
{
    match st.unacked[id] {
        UnackedView::Small { message, last_sent } => {
            let r = scan_one(channel_id, resend, now, id, st);
            assert forall|k: int, x: u64| 0 <= k < r.packets.len() && #[trigger] carries(r.packets[k], x) implies d.contains(x) by {
                if k < st.packets.len() {
                    assert(r.packets[k] == st.packets[k]);
                } else {
                    let j = choose|j: int| 0 <= j < st.small.len() && st.small[j].0 == x;
                    assert(d.contains(st.small[j].0));
                }
            }
            assert forall|k: int| 0 <= k < r.small.len() implies d.contains(#[trigger] r.small[k].0) by {
                if k < st.small.len() && r.small.len() > 1 {
                    assert(r.small[k] == st.small[k]);
                }
            }
        },
        UnackedView::Sliced { message, num_slices, next_slice_to_send, acked, last_sent, .. } => {
            lemma_slices_only(
                channel_id,
                resend,
                now,
                id,
                message,
                num_slices,
                acked,
                next_slice_to_send,
                0,
                SliceScan { st, last_sent, next: next_slice_to_send },
                d,
            );
        },
    }
}

proof fn lemma_keys_only(channel_id: u8, resend: u128, now: u128, keys: Seq<u64>, j: int, st: SendScan, d: Set<u64>)
    requires
        only_ids(st, d),
        forall|i: int| 0 <= i < keys.len() ==> d.contains(#[trigger] keys[i]),
    ensures
        only_ids(scan_keys(channel_id, resend, now, keys, j, st), d),
    decreases keys.len() - j,
{
    if j >= keys.len() || j < 0 {
    } else {
        lemma_one_only(channel_id, resend, now, keys[j], st, d);
        lemma_keys_only(channel_id, resend, now, keys, j + 1, scan_one(channel_id, resend, now, keys[j], st), d);
    }
}

/// A message once acknowledged is never sent again: no packet of a later
/// send pass carries it, whole or as a slice.
pub proof fn lemma_acked_not_resent(
    v: SendChannelView,
    id: u64,
    keys: Seq<u64>,
    sequence: nat,
    available: nat,
    now: u128,
)
    requires
        v.unacked.contains_key(id),
        increasing_keys(keys, SendChannelReliable::acked_state(v, id).unacked.dom()),
    ensures
        ({
            let r = send_scan(SendChannelReliable::acked_state(v, id), keys, sequence, available, now);
            forall|i: int| 0 <= i < r.packets.len() ==> !carries(#[trigger] r.packets[i], id)
        }),
{
    let a = SendChannelReliable::acked_state(v, id);
    let d = a.unacked.dom();
    let st0 = SendScan {
        packets: seq![],
        small: seq![],
        small_bytes: 0,
        sequence,
        available,
        unacked: a.unacked,
    };
    assert forall|i: int| 0 <= i < keys.len() implies d.contains(#[trigger] keys[i]) by {
        assert(keys.to_set().contains(keys[i]));
    }
    lemma_keys_only(a.channel_id, a.resend_time, now, keys, 0, st0, d);
    let st = scan_keys(a.channel_id, a.resend_time, now, keys, 0, st0);
    let r = scan_finish(a.channel_id, st);
    assert forall|k: int, x: u64| 0 <= k < r.packets.len() && #[trigger] carries(r.packets[k], x) implies d.contains(x) by {
        if k < st.packets.len() {
            assert(r.packets[k] == st.packets[k]);
        } else {
            let j = choose|j: int| 0 <= j < st.small.len() && st.small[j].0 == x;
            assert(d.contains(st.small[j].0));
        }
    }
    assert forall|i: int| 0 <= i < r.packets.len() implies !carries(#[trigger] r.packets[i], id) by {
        if carries(r.packets[i], id) {
            assert(d.contains(id));
        }
    }
}

/// The channel after the slices `order` of message `id` are acknowledged,
/// one after the other.
pub open spec fn ack_slices(v: SendChannelView, id: u64, order: Seq<nat>) -> SendChannelView
    decreases order.len(),
{
    if order.len() == 0 {
        v
    } else {
        ack_slices(slice_ack_spec(v, id, order[0]), id, order.drop_first())
    }
}

proof fn lemma_acks_absent(v: SendChannelView, id: u64, order: Seq<nat>)
    requires
        !v.unacked.contains_key(id),
    ensures
        ack_slices(v, id, order) == v,
    decreases order.len(),
{
    if order.len() > 0 {
        lemma_acks_absent(v, id, order.drop_first());
    }
}

proof fn lemma_acks(w: SendChannelView, id: u64, order: Seq<nat>, target: SendChannelView)
    requires
        w.unacked.contains_key(id),
        w.unacked[id] is Sliced,
        w.unacked[id].wf(),
        SendChannelReliable::acked_state(w, id) == target,
        forall|k: int| 0 <= k < order.len() ==> order[k] < w.unacked[id]->num_slices,
        forall|i: int| 0 <= i < w.unacked[id]->num_slices && !w.unacked[id]->acked[i] ==> order.contains(i as nat),
    ensures
        ack_slices(w, id, order) == target,
    decreases order.len(),
{
    let u = w.unacked[id];
    let n = u->num_slices;
    if order.len() == 0 {
        if forall|i: int| 0 <= i < n ==> u->acked[i] {
            lemma_count_true_all(u->acked);
        }
        let i = choose|i: int| 0 <= i < n && !u->acked[i];
        assert(order.contains(i as nat));
    } else {
        let i = order[0];
        let rest = order.drop_first();
        let w2 = slice_ack_spec(w, id, i);
        if u->acked[i as int] {
            assert forall|j: int| 0 <= j < n && !u->acked[j] implies rest.contains(j as nat) by {
                let k = choose|k: int| 0 <= k < order.len() && order[k] == j as nat;
                assert(k != 0);
                assert(rest[k - 1] == j as nat);
            }
            lemma_acks(w2, id, rest, target);
        } else {
            let acked = u->acked.update(i as int, true);
            lemma_count_true_update(u->acked, i as int);
            if count_true(acked) == n {
                lemma_acks_absent(w2, id, rest);
            } else {
                let u2 = w2.unacked[id];
                assert(u2->acked == acked);
                assert(w2.unacked.remove(id) =~= w.unacked.remove(id));
                assert(u2.message() == u.message());
                assert forall|j: int| 0 <= j < n && !u2->acked[j] implies rest.contains(j as nat) by {
                    assert(!u->acked[j]);
                    let k = choose|k: int| 0 <= k < order.len() && order[k] == j as nat;
                    assert(k != 0);
                    assert(rest[k - 1] == j as nat);
                }
                lemma_acks(w2, id, rest, target);
            }
        }
    }
}

/// A message sent in slices is dropped, and its bytes freed, once each of
/// its slices has been acknowledged at least once, in any order: the
/// channel ends as if the message had been acknowledged whole.
pub proof fn lemma_slice_acks_free(v: SendChannelView, id: u64, order: Seq<nat>)
    requires
        v.unacked.contains_key(id),
        v.unacked[id] is Sliced,
        v.unacked[id].wf(),
        forall|k: int| 0 <= k < order.len() ==> order[k] < v.unacked[id]->num_slices,
        forall|i: nat| i < v.unacked[id]->num_slices ==> order.contains(i),
    ensures
        ack_slices(v, id, order) == SendChannelReliable::acked_state(v, id),
{
    assert forall|i: int| 0 <= i < v.unacked[id]->num_slices && !v.unacked[id]->acked[i] implies order.contains(
        i as nat,
    ) by {
        assert((i as nat) < v.unacked[id]->num_slices);
    }
    lemma_acks(v, id, order, SendChannelReliable::acked_state(v, id));
}

/// Acknowledging a small message twice is acknowledging it once: after the
/// first acknowledgement its id is no longer queued, and an id that is not
/// queued changes nothing (`process_message_ack`).
pub proof fn lemma_ack_twice(v: SendChannelView, id: u64)
    ensures
        !SendChannelReliable::acked_state(v, id).unacked.contains_key(id),
{
}

/// Acknowledging a slice twice is acknowledging it once.
pub proof fn lemma_slice_ack_twice(v: SendChannelView, id: u64, slice_index: nat)
    requires
        v.unacked.contains_key(id) ==> v.unacked[id] is Sliced && slice_index < v.unacked[id]->acked.len(),
    ensures
        slice_ack_spec(slice_ack_spec(v, id, slice_index), id, slice_index) == slice_ack_spec(v, id, slice_index),
{
    let v1 = slice_ack_spec(v, id, slice_index);
    if v.unacked.contains_key(id) && !v.unacked[id]->acked[slice_index as int] {
        let acked = v.unacked[id]->acked.update(slice_index as int, true);
        if count_true(acked) != v.unacked[id]->num_slices {
            assert(v1.unacked[id]->acked[slice_index as int]);
        }
    }
}

/// The channel after `messages` are sent in turn with `send_message`.
pub open spec fn send_all(v: SendChannelView, messages: Seq<Seq<u8>>) -> SendChannelView
    decreases messages.len(),
{
    if messages.len() == 0 {
        v
    } else {
        send_message_spec(send_all(v, messages.drop_last()), messages.last()).1
    }
}

/// How many of `messages`, sent in turn, are accepted, and their bytes.
pub open spec fn accepted(v: SendChannelView, messages: Seq<Seq<u8>>) -> (nat, nat)
    decreases messages.len(),
{
    if messages.len() == 0 {
        (0, 0)
    } else {
        let before = send_all(v, messages.drop_last());
        let (n, bytes) = accepted(v, messages.drop_last());
        if send_message_spec(before, messages.last()).0 is Ok {
            (n + 1, bytes + messages.last().len())
        } else {
            (n, bytes)
        }
    }
}

/// Messages sent in turn take consecutive ids: each accepted message is
/// queued under the first id plus the number of messages accepted before
/// it, a refused one leaves the channel as it was, and the memory in use
/// grows by the bytes of the accepted messages.
pub proof fn lemma_send_all(v: SendChannelView, messages: Seq<Seq<u8>>)
    requires
        v.next_reliable_message_id + messages.len() <= u64::MAX,
    ensures
        accepted(v, messages).0 <= messages.len(),
        send_all(v, messages).next_reliable_message_id == v.next_reliable_message_id + accepted(v, messages).0,
        send_all(v, messages).memory_usage_bytes == v.memory_usage_bytes + accepted(v, messages).1,
        send_all(v, messages).max_memory_usage_bytes == v.max_memory_usage_bytes,
        forall|i: int|
            0 <= i < messages.len() && #[trigger] send_message_spec(send_all(v, messages.take(i)), messages[i]).0 is Ok
                ==> send_all(v, messages.take(i + 1)).unacked[(v.next_reliable_message_id + accepted(
                v,
                messages.take(i),
            ).0) as u64] == new_unacked(messages[i]),
    decreases messages.len(),
{
    if messages.len() > 0 {
        let init = messages.drop_last();
        lemma_send_all(v, init);
        assert forall|i: int|
            0 <= i < messages.len() && #[trigger] send_message_spec(send_all(v, messages.take(i)), messages[i]).0 is Ok
                implies send_all(v, messages.take(i + 1)).unacked[(v.next_reliable_message_id + accepted(
                v,
                messages.take(i),
            ).0) as u64] == new_unacked(messages[i]) by {
            if i < messages.len() - 1 {
                assert(messages.take(i) =~= init.take(i));
                assert(messages.take(i + 1) =~= init.take(i + 1));
                assert(messages[i] == init[i]);
                assert(send_message_spec(send_all(v, init.take(i)), init[i]).0 is Ok);
            } else {
                assert(messages.take(i) =~= init);
                assert(messages.take(i + 1) =~= messages);
                assert(messages.take(i + 1).drop_last() =~= init);
            }
        }
    }
}

/// The sequence number of a packet.
pub open spec fn packet_sequence(p: PacketView) -> nat {
    match p {
        PacketView::SmallReliable { sequence, .. } => sequence,
        PacketView::ReliableSlice { sequence, .. } => sequence,
    }
}

/// The channel of a packet.
pub open spec fn packet_channel(p: PacketView) -> u8 {
    match p {
        PacketView::SmallReliable { channel_id, .. } => channel_id,
        PacketView::ReliableSlice { channel_id, .. } => channel_id,
    }
}

/// The packets made so far in a pass are numbered from `first` on, one
/// after the other, on `channel_id`, and the next number follows them.
spec fn numbered(st: SendScan, channel_id: u8, first: nat) -> bool {
    &&& st.sequence == first + st.packets.len()
    &&& forall|i: int|
        0 <= i < st.packets.len() ==> packet_sequence(#[trigger] st.packets[i]) == first + i && packet_channel(
            st.packets[i],
        ) == channel_id
}

proof fn lemma_slices_numbered(
    channel_id: u8,
    resend: u128,
    now: u128,
    id: u64,
    message: Seq<u8>,
    n: nat,
    acked: Seq<bool>,
    start: nat,
    i: int,
    ss: SliceScan,
    first: nat,
)
    requires
        numbered(ss.st, channel_id, first),
    ensures
        numbered(scan_slices(channel_id, resend, now, id, message, n, acked, start, i, ss).st, channel_id, first),
    decreases n - i,
{
    if i >= n || i < 0 || ss.st.available < SLICE_SIZE {
    } else {
        let idx = ((start + i) % (n as int)) as nat;
        if acked[idx as int] || sent_recently(now, ss.last_sent[idx as int], resend) {
            lemma_slices_numbered(channel_id, resend, now, id, message, n, acked, start, i + 1, ss, first);
        } else {
            let payload = slice_payload(message, n, idx);
            let st = SendScan {
                packets: ss.st.packets.push(
                    PacketView::ReliableSlice {
                        sequence: ss.st.sequence,
                        channel_id,
                        message_id: id,
                        slice_index: idx,
                        num_slices: n,
                        payload,
                    },
                ),
                sequence: ss.st.sequence + 1,
                available: (ss.st.available - payload.len()) as nat,
                ..ss.st
            };
            assert forall|k: int| 0 <= k < st.packets.len() implies packet_sequence(#[trigger] st.packets[k]) == first + k
                && packet_channel(st.packets[k]) == channel_id by {
                if k < ss.st.packets.len() {
                    assert(st.packets[k] == ss.st.packets[k]);
                }
            }
            lemma_slices_numbered(
                channel_id,
                resend,
                now,
                id,
                message,
                n,
                acked,
                start,
                i + 1,
                SliceScan { st, last_sent: ss.last_sent.update(idx as int, Some(now)), next: (idx + 1nat % n) as nat },
                first,
            );
        }
    }
}

proof fn lemma_one_numbered(channel_id: u8, resend: u128, now: u128, id: u64, st: SendScan, first: nat)
    requires
        numbered(st, channel_id, first),
    ensures
        numbered(scan_one(channel_id, resend, now, id, st), channel_id, first),
{
    match st.unacked[id] {
        UnackedView::Small { message, last_sent } => {
            let r = scan_one(channel_id, resend, now, id, st);
            assert forall|k: int| 0 <= k < r.packets.len() implies packet_sequence(#[trigger] r.packets[k]) == first + k
                && packet_channel(r.packets[k]) == channel_id by {
                if k < st.packets.len() {
                    assert(r.packets[k] == st.packets[k]);
                }
            }
        },
        UnackedView::Sliced { message, num_slices, next_slice_to_send, acked, last_sent, .. } => {
            lemma_slices_numbered(
                channel_id,
                resend,
                now,
                id,
                message,
                num_slices,
                acked,
                next_slice_to_send,
                0,
                SliceScan { st, last_sent, next: next_slice_to_send },
                first,
            );
        },
    }
}

proof fn lemma_keys_numbered(channel_id: u8, resend: u128, now: u128, keys: Seq<u64>, j: int, st: SendScan, first: nat)
    requires
        numbered(st, channel_id, first),
    ensures
        numbered(scan_keys(channel_id, resend, now, keys, j, st), channel_id, first),
    decreases keys.len() - j,
{
    if j >= keys.len() || j < 0 {
    } else {
        lemma_one_numbered(channel_id, resend, now, keys[j], st, first);
        lemma_keys_numbered(channel_id, resend, now, keys, j + 1, scan_one(channel_id, resend, now, keys[j], st), first);
    }
}

/// The packets of a send pass are all on the channel's id and carry the
/// sequence numbers from the one the pass starts with on, one after the
/// other; the next sequence number follows the last of them.
pub proof fn lemma_send_pass_numbered(v: SendChannelView, keys: Seq<u64>, sequence: nat, available: nat, now: u128)
    ensures
        ({
            let r = send_scan(v, keys, sequence, available, now);
            &&& r.sequence == sequence + r.packets.len()
            &&& forall|i: int|
                0 <= i < r.packets.len() ==> packet_sequence(#[trigger] r.packets[i]) == sequence + i && packet_channel(
                    r.packets[i],
                ) == v.channel_id
        }),
{
    let st0 = SendScan { packets: seq![], small: seq![], small_bytes: 0, sequence, available, unacked: v.unacked };
    lemma_keys_numbered(v.channel_id, v.resend_time, now, keys, 0, st0, sequence);
    let st = scan_keys(v.channel_id, v.resend_time, now, keys, 0, st0);
    let r = scan_finish(v.channel_id, st);
    assert forall|k: int| 0 <= k < r.packets.len() implies packet_sequence(#[trigger] r.packets[k]) == sequence + k
        && packet_channel(r.packets[k]) == v.channel_id by {
        if k < st.packets.len() {
            assert(r.packets[k] == st.packets[k]);
        }
    }
}

/// The bytes of the messages in a list of small messages.
pub open spec fn small_total(ms: Seq<(u64, Seq<u8>)>) -> nat
    decreases ms.len(),
{
    if ms.len() == 0 {
        0
    } else {
        small_total(ms.drop_last()) + ms.last().1.len()
    }
}

/// The message bytes that a packet carries.
pub open spec fn packet_bytes(p: PacketView) -> nat {
    match p {
        PacketView::SmallReliable { messages, .. } => small_total(messages),
        PacketView::ReliableSlice { payload, .. } => payload.len(),
    }
}

/// The message bytes that a list of packets carries.
pub open spec fn packets_total(ps: Seq<PacketView>) -> nat
    decreases ps.len(),
{
    if ps.len() == 0 {
        0
    } else {
        packets_total(ps.drop_last()) + packet_bytes(ps.last())
    }
}

/// A sliced message has as many slices as its length calls for.
spec fn slices_fit(m: Map<u64, UnackedView>) -> bool {
    forall|id: u64|
        #[trigger] m.contains_key(id) && m[id] is Sliced ==> {
            &&& SLICE_SIZE < m[id]->Sliced_message.len()
            &&& m[id]->num_slices == num_slices_for(m[id]->Sliced_message.len())
        }
}

/// The bytes taken from the allowance so far went into the packets made
/// and the small messages waiting.
spec fn spent(st: SendScan, start: nat) -> bool {
    st.available + packets_total(st.packets) + small_total(st.small) == start
}

proof fn lemma_payload_len(message: Seq<u8>, n: nat, idx: nat)
    requires
        SLICE_SIZE < message.len(),
        n == num_slices_for(message.len()),
        idx < n,
    ensures
        slice_payload(message, n, idx).len() <= SLICE_SIZE,
{
    let len = message.len() as int;
    assert((n - 1) * 1200 < len <= n * 1200) by (nonlinear_arith)
        requires
            1200 < len,
            n == (len + 1199) / 1200,
    ;
    assert(idx * 1200 <= (n - 1) * 1200 && (idx < n - 1 ==> (idx + 1) * 1200 <= (n - 1) * 1200)) by (nonlinear_arith)
        requires
            0 <= idx < n,
    ;
}

proof fn lemma_slices_spent(
    channel_id: u8,
    resend: u128,
    now: u128,
    id: u64,
    message: Seq<u8>,
    n: nat,
    acked: Seq<bool>,
    start: nat,
    i: int,
    ss: SliceScan,
    a0: nat,
)
    requires
        spent(ss.st, a0),
        SLICE_SIZE < message.len(),
        n == num_slices_for(message.len()),
    ensures
        spent(scan_slices(channel_id, resend, now, id, message, n, acked, start, i, ss).st, a0),
        scan_slices(channel_id, resend, now, id, message, n, acked, start, i, ss).st.unacked == ss.st.unacked,
    decreases n - i,
{
    if i >= n || i < 0 || ss.st.available < SLICE_SIZE {
    } else {
        let idx = ((start + i) % (n as int)) as nat;
        if acked[idx as int] || sent_recently(now, ss.last_sent[idx as int], resend) {
            lemma_slices_spent(channel_id, resend, now, id, message, n, acked, start, i + 1, ss, a0);
        } else {
            let payload = slice_payload(message, n, idx);
            lemma_payload_len(message, n, idx);
            let p = PacketView::ReliableSlice {
                sequence: ss.st.sequence,
                channel_id,
                message_id: id,
                slice_index: idx,
                num_slices: n,
                payload,
            };
            let st = SendScan {
                packets: ss.st.packets.push(p),
                sequence: ss.st.sequence + 1,
                available: (ss.st.available - payload.len()) as nat,
                ..ss.st
            };
            assert(st.packets.drop_last() =~= ss.st.packets);
            assert(spent(st, a0));
            lemma_slices_spent(
                channel_id,
                resend,
                now,
                id,
                message,
                n,
                acked,
                start,
                i + 1,
                SliceScan { st, last_sent: ss.last_sent.update(idx as int, Some(now)), next: (idx + 1nat % n) as nat },
                a0,
            );
        }
    }
}

proof fn lemma_one_spent(channel_id: u8, resend: u128, now: u128, id: u64, st: SendScan, a0: nat)
    requires
        spent(st, a0),
        slices_fit(st.unacked),
        st.unacked.contains_key(id),
    ensures
        spent(scan_one(channel_id, resend, now, id, st), a0),
        slices_fit(scan_one(channel_id, resend, now, id, st).unacked),
        scan_one(channel_id, resend, now, id, st).unacked.dom() == st.unacked.dom(),
{
    let r = scan_one(channel_id, resend, now, id, st);
    match st.unacked[id] {
        UnackedView::Small { message, last_sent } => {
            if !(st.available < message.len() || sent_recently(now, last_sent, resend)) {
                let flush = st.small_bytes + crate::reliable::small_size(id, message) > SLICE_SIZE;
                if flush {
                    let p = PacketView::SmallReliable { sequence: st.sequence, channel_id, messages: st.small };
                    assert(r.packets.drop_last() =~= st.packets);
                    assert(r.packets.last() == p);
                    assert(packets_total(r.packets) == packets_total(st.packets) + small_total(st.small));
                    assert(r.small == seq![(id, message)]);
                    assert(r.small.drop_last() =~= Seq::<(u64, Seq<u8>)>::empty());
                    assert(small_total(Seq::<(u64, Seq<u8>)>::empty()) == 0);
                    assert(r.small.last().1 == message);
                    assert(small_total(r.small) == message.len());
                } else {
                    assert(r.small.drop_last() =~= st.small);
                    assert(small_total(r.small) == small_total(st.small) + message.len());
                    assert(r.packets == st.packets);
                }
                assert(r.available == st.available - message.len());
            }
            assert forall|k: u64| #[trigger] r.unacked.contains_key(k) && r.unacked[k] is Sliced implies {
                &&& SLICE_SIZE < r.unacked[k]->Sliced_message.len()
                &&& r.unacked[k]->num_slices == num_slices_for(r.unacked[k]->Sliced_message.len())
            } by {
                assert(st.unacked.contains_key(k));
            }
            assert(r.unacked.dom() =~= st.unacked.dom());
        },
        UnackedView::Sliced { message, num_slices, num_acked_slices, next_slice_to_send, acked, last_sent } => {
            let ss0 = SliceScan { st, last_sent, next: next_slice_to_send };
            lemma_slices_spent(channel_id, resend, now, id, message, num_slices, acked, next_slice_to_send, 0, ss0, a0);
            let ss = scan_slices(channel_id, resend, now, id, message, num_slices, acked, next_slice_to_send, 0, ss0);
            assert(r.packets == ss.st.packets && r.small == ss.st.small && r.available == ss.st.available);
            assert forall|k: u64| #[trigger] r.unacked.contains_key(k) && r.unacked[k] is Sliced implies {
                &&& SLICE_SIZE < r.unacked[k]->Sliced_message.len()
                &&& r.unacked[k]->num_slices == num_slices_for(r.unacked[k]->Sliced_message.len())
            } by {
                assert(st.unacked.contains_key(k));
            }
            assert(r.unacked.dom() =~= st.unacked.dom());
        },
    }
}

proof fn lemma_keys_spent(channel_id: u8, resend: u128, now: u128, keys: Seq<u64>, j: int, st: SendScan, a0: nat)
    requires
        spent(st, a0),
        slices_fit(st.unacked),
        forall|i: int| 0 <= i < keys.len() ==> st.unacked.contains_key(#[trigger] keys[i]),
    ensures
        spent(scan_keys(channel_id, resend, now, keys, j, st), a0),
    decreases keys.len() - j,
{
    if j >= keys.len() || j < 0 {
    } else {
        lemma_one_spent(channel_id, resend, now, keys[j], st, a0);
        let st2 = scan_one(channel_id, resend, now, keys[j], st);
        assert forall|i: int| 0 <= i < keys.len() implies st2.unacked.contains_key(#[trigger] keys[i]) by {
            assert(st.unacked.contains_key(keys[i]));
        }
        lemma_keys_spent(channel_id, resend, now, keys, j + 1, st2, a0);
    }
}

/// A send pass over the queued messages takes from the allowance exactly
/// the bytes of the messages and slices that its packets carry, so never
/// more than it was allowed.
pub proof fn lemma_send_pass_spends(v: SendChannelView, keys: Seq<u64>, sequence: nat, available: nat, now: u128)
    requires
        increasing_keys(keys, v.unacked.dom()),
        forall|id: u64| #[trigger] v.unacked.contains_key(id) ==> v.unacked[id].wf(),
    ensures
        ({
            let r = send_scan(v, keys, sequence, available, now);
            r.available + packets_total(r.packets) == available
        }),
{
    let st0 = SendScan { packets: seq![], small: seq![], small_bytes: 0, sequence, available, unacked: v.unacked };
    assert forall|id: u64| #[trigger] st0.unacked.contains_key(id) && st0.unacked[id] is Sliced implies {
        &&& SLICE_SIZE < st0.unacked[id]->Sliced_message.len()
        &&& st0.unacked[id]->num_slices == num_slices_for(st0.unacked[id]->Sliced_message.len())
    } by {
        assert(v.unacked[id].wf());
    }
    assert forall|i: int| 0 <= i < keys.len() implies st0.unacked.contains_key(#[trigger] keys[i]) by {
        assert(keys.to_set().contains(keys[i]));
    }
    lemma_keys_spent(v.channel_id, v.resend_time, now, keys, 0, st0, available);
    let st = scan_keys(v.channel_id, v.resend_time, now, keys, 0, st0);
    let r = scan_finish(v.channel_id, st);
    if st.small.len() > 0 {
        assert(r.packets.drop_last() =~= st.packets);
    } else {
        assert(small_total(st.small) == 0);
    }
}

/// Message `k` has been taken in: its id is behind the oldest pending one,
/// or it is waiting (ordered), or it is among the ids received (unordered).
pub open spec fn taken_in(v: ReceiveChannelView, k: u64) -> bool {
    ||| k < v.oldest_pending_message_id
    ||| v.ordered && v.messages.contains_key(k)
    ||| !v.ordered && v.received_messages.contains(k)
}

/// A message that `process_message` accepts is taken in.
pub proof fn lemma_accepted_taken_in(v: ReceiveChannelView, m: Seq<u8>, k: u64)
    requires
        process_message_spec(v, m, k).0 is Ok,
    ensures
        taken_in(process_message_spec(v, m, k).1, k),
{
}

/// Once taken in, a message stays taken in whatever other message is
/// taken in afterwards.
pub proof fn lemma_taken_in_after_process(v: ReceiveChannelView, m: Seq<u8>, j: u64, k: u64)
    requires
        taken_in(v, k),
    ensures
        taken_in(process_message_spec(v, m, j).1, k),
{
}

/// Once taken in, a message stays taken in when a message is handed out.
pub proof fn lemma_taken_in_after_receive(v: ReceiveChannelView, k: u64)
    requires
        taken_in(v, k),
        receive_fits(v),
    ensures
        taken_in(receive_message_spec(v).1, k),
{
    if !v.ordered && !v.messages.dom().is_empty() {
        let any = v.messages.dom().choose();
        lemma_smallest_key(v.messages, any);
        let id = choose|id: u64| #[trigger] v.messages.contains_key(id) && forall|j: u64| #[trigger] v.messages.contains_key(j) ==> id <= j;
        let o = v.oldest_pending_message_id;
        if o == id {
            assert(v.messages.contains_key(o));
            let w = choose|w: u64| o <= w && !#[trigger] v.received_messages.contains(w);
            let o2 = next_missing(v.received_messages, o);
            assert(exists|o3: u64| o <= o3 && !v.received_messages.contains(o3) && forall|x: u64| o <= x < o3 ==> #[trigger] v.received_messages.contains(x)) by {
                lemma_first_missing(v.received_messages, o, w);
            }
            assert(o <= o2);
        }
    }
}

proof fn lemma_smallest_key(m: Map<u64, Seq<u8>>, w: u64)
    requires
        m.contains_key(w),
    ensures
        exists|id: u64| #[trigger] m.contains_key(id) && forall|j: u64| #[trigger] m.contains_key(j) ==> id <= j,
    decreases w,
{
    if exists|x: u64| m.contains_key(x) && x < w {
        let x = choose|x: u64| m.contains_key(x) && x < w;
        lemma_smallest_key(m, x);
    } else {
        assert(forall|j: u64| #[trigger] m.contains_key(j) ==> w <= j);
    }
}

proof fn lemma_first_missing(r: Set<u64>, o: u64, w: u64)
    requires
        o <= w,
        !r.contains(w),
    ensures
        exists|o3: u64| o <= o3 && !r.contains(o3) && forall|x: u64| o <= x < o3 ==> #[trigger] r.contains(x),
    decreases w - o,
{
    if r.contains(o) {
        lemma_first_missing(r, (o + 1) as u64, w);
        let o3 = choose|o3: u64| o + 1 <= o3 && !r.contains(o3) && forall|x: u64| o + 1 <= x < o3 ==> #[trigger] r.contains(x);
        assert(forall|x: u64| o <= x < o3 ==> #[trigger] r.contains(x));
    } else {
        assert(forall|x: u64| o <= x < o ==> #[trigger] r.contains(x));
    }
}

/// A copy of a message that has been taken in is ignored: `process_message`
/// accepts it and leaves the messages waiting, the memory in use and the
/// oldest pending id as they were, so the message is never waiting twice
/// nor handed out again once handed out.
pub proof fn lemma_copy_ignored(v: ReceiveChannelView, m: Seq<u8>, k: u64)
    requires
        taken_in(v, k),
    ensures
        ({
            let (r, v1) = process_message_spec(v, m, k);
            &&& r is Ok
            &&& v1.messages == v.messages
            &&& v1.memory_usage_bytes == v.memory_usage_bytes
            &&& v1.oldest_pending_message_id == v.oldest_pending_message_id
            &&& taken_in(v1, k)
        }),
{
}

/// The sliced messages of `m` agree with those of `m0`: same ids, same
/// kinds, and the same bytes, slice count and acknowledged slices.
spec fn same_slicing(m: Map<u64, UnackedView>, m0: Map<u64, UnackedView>) -> bool {
    &&& m.dom() == m0.dom()
    &&& forall|k: u64|
        #[trigger] m.contains_key(k) ==> {
            &&& (m[k] is Sliced <==> m0[k] is Sliced)
            &&& m[k] is Sliced ==> {
                &&& m[k]->Sliced_message == m0[k]->Sliced_message
                &&& m[k]->num_slices == m0[k]->num_slices
                &&& m[k]->acked == m0[k]->acked
            }
        }
}

/// Every slice packet made so far is a slice not yet acknowledged of a
/// message queued in `m0`, with that message's slice count and the bytes
/// of that slice.
pub open spec fn slices_right(ps: Seq<PacketView>, m0: Map<u64, UnackedView>) -> bool {
    forall|i: int|
        0 <= i < ps.len() && #[trigger] ps[i] is ReliableSlice ==> {
            let k = ps[i]->message_id;
            let idx = ps[i]->slice_index;
            &&& m0.contains_key(k)
            &&& m0[k] is Sliced
            &&& ps[i]->ReliableSlice_num_slices == m0[k]->num_slices
            &&& idx < m0[k]->num_slices
            &&& !m0[k]->acked[idx as int]
            &&& ps[i]->payload == slice_payload(m0[k]->Sliced_message, m0[k]->num_slices, idx)
        }
}

proof fn lemma_slices_right(
    channel_id: u8,
    resend: u128,
    now: u128,
    id: u64,
    message: Seq<u8>,
    n: nat,
    acked: Seq<bool>,
    start: nat,
    i: int,
    ss: SliceScan,
    m0: Map<u64, UnackedView>,
)
    requires
        slices_right(ss.st.packets, m0),
        m0.contains_key(id),
        m0[id] is Sliced,
        message == m0[id]->Sliced_message,
        n == m0[id]->num_slices,
        acked == m0[id]->acked,
        n >= 1,
    ensures
        slices_right(scan_slices(channel_id, resend, now, id, message, n, acked, start, i, ss).st.packets, m0),
        scan_slices(channel_id, resend, now, id, message, n, acked, start, i, ss).st.unacked == ss.st.unacked,
    decreases n - i,
{
    if i >= n || i < 0 || ss.st.available < SLICE_SIZE {
    } else {
        let idx = ((start + i) % (n as int)) as nat;
        if acked[idx as int] || sent_recently(now, ss.last_sent[idx as int], resend) {
            lemma_slices_right(channel_id, resend, now, id, message, n, acked, start, i + 1, ss, m0);
        } else {
            let payload = slice_payload(message, n, idx);
            let p = PacketView::ReliableSlice {
                sequence: ss.st.sequence,
                channel_id,
                message_id: id,
                slice_index: idx,
                num_slices: n,
                payload,
            };
            let st = SendScan {
                packets: ss.st.packets.push(p),
                sequence: ss.st.sequence + 1,
                available: (ss.st.available - payload.len()) as nat,
                ..ss.st
            };
            assert forall|k: int| 0 <= k < st.packets.len() && #[trigger] st.packets[k] is ReliableSlice implies {
                let mk = st.packets[k]->message_id;
                let ik = st.packets[k]->slice_index;
                &&& m0.contains_key(mk)
                &&& m0[mk] is Sliced
                &&& st.packets[k]->ReliableSlice_num_slices == m0[mk]->num_slices
                &&& ik < m0[mk]->num_slices
                &&& !m0[mk]->acked[ik as int]
                &&& st.packets[k]->payload == slice_payload(m0[mk]->Sliced_message, m0[mk]->num_slices, ik)
            } by {
                if k < ss.st.packets.len() {
                    assert(st.packets[k] == ss.st.packets[k]);
                }
            }
            lemma_slices_right(
                channel_id,
                resend,
                now,
                id,
                message,
                n,
                acked,
                start,
                i + 1,
                SliceScan { st, last_sent: ss.last_sent.update(idx as int, Some(now)), next: (idx + 1nat % n) as nat },
                m0,
            );
        }
    }
}

proof fn lemma_one_right(channel_id: u8, resend: u128, now: u128, id: u64, st: SendScan, m0: Map<u64, UnackedView>)
    requires
        slices_right(st.packets, m0),
        same_slicing(st.unacked, m0),
        st.unacked.contains_key(id),
        forall|k: u64| #[trigger] m0.contains_key(k) && m0[k] is Sliced ==> m0[k]->num_slices >= 1,
    ensures
        slices_right(scan_one(channel_id, resend, now, id, st).packets, m0),
        same_slicing(scan_one(channel_id, resend, now, id, st).unacked, m0),
{
    let r = scan_one(channel_id, resend, now, id, st);
    match st.unacked[id] {
        UnackedView::Small { message, last_sent } => {
            assert forall|k: int| 0 <= k < r.packets.len() && #[trigger] r.packets[k] is ReliableSlice implies {
                let mk = r.packets[k]->message_id;
                let ik = r.packets[k]->slice_index;
                &&& m0.contains_key(mk)
                &&& m0[mk] is Sliced
                &&& r.packets[k]->ReliableSlice_num_slices == m0[mk]->num_slices
                &&& ik < m0[mk]->num_slices
                &&& !m0[mk]->acked[ik as int]
                &&& r.packets[k]->payload == slice_payload(m0[mk]->Sliced_message, m0[mk]->num_slices, ik)
            } by {
                if k < st.packets.len() {
                    assert(r.packets[k] == st.packets[k]);
                }
            }
            assert(r.unacked.dom() =~= m0.dom());
        },
        UnackedView::Sliced { message, num_slices, num_acked_slices, next_slice_to_send, acked, last_sent } => {
            assert(m0.contains_key(id));
            let ss0 = SliceScan { st, last_sent, next: next_slice_to_send };
            lemma_slices_right(channel_id, resend, now, id, message, num_slices, acked, next_slice_to_send, 0, ss0, m0);
            assert(r.unacked.dom() =~= m0.dom());
        },
    }
}

proof fn lemma_keys_right(
    channel_id: u8,
    resend: u128,
    now: u128,
    keys: Seq<u64>,
    j: int,
    st: SendScan,
    m0: Map<u64, UnackedView>,
)
    requires
        slices_right(st.packets, m0),
        same_slicing(st.unacked, m0),
        forall|i: int| 0 <= i < keys.len() ==> m0.contains_key(#[trigger] keys[i]),
        forall|k: u64| #[trigger] m0.contains_key(k) && m0[k] is Sliced ==> m0[k]->num_slices >= 1,
    ensures
        slices_right(scan_keys(channel_id, resend, now, keys, j, st).packets, m0),
        same_slicing(scan_keys(channel_id, resend, now, keys, j, st).unacked, m0),
    decreases keys.len() - j,
{
    if j >= keys.len() || j < 0 {
    } else {
        assert(m0.contains_key(keys[j]));
        lemma_one_right(channel_id, resend, now, keys[j], st, m0);
        lemma_keys_right(channel_id, resend, now, keys, j + 1, scan_one(channel_id, resend, now, keys[j], st), m0);
    }
}

/// Every slice that a send pass sends is a slice not yet acknowledged of a
/// queued message, with the message's slice count and exactly the bytes of
/// that slice; so an acknowledged slice is not sent again, and the slices
/// of a message put together give the message back.
pub proof fn lemma_send_pass_slices(v: SendChannelView, keys: Seq<u64>, sequence: nat, available: nat, now: u128)
    requires
        increasing_keys(keys, v.unacked.dom()),
        forall|id: u64| #[trigger] v.unacked.contains_key(id) ==> v.unacked[id].wf(),
    ensures
        slices_right(send_scan(v, keys, sequence, available, now).packets, v.unacked),
{
    let m0 = v.unacked;
    let st0 = SendScan { packets: seq![], small: seq![], small_bytes: 0, sequence, available, unacked: m0 };
    assert forall|k: u64| #[trigger] m0.contains_key(k) && m0[k] is Sliced implies m0[k]->num_slices >= 1 by {
        assert(m0[k].wf());
    }
    assert forall|i: int| 0 <= i < keys.len() implies m0.contains_key(#[trigger] keys[i]) by {
        assert(keys.to_set().contains(keys[i]));
    }
    lemma_keys_right(v.channel_id, v.resend_time, now, keys, 0, st0, m0);
    let st = scan_keys(v.channel_id, v.resend_time, now, keys, 0, st0);
    let r = scan_finish(v.channel_id, st);
    assert forall|k: int| 0 <= k < r.packets.len() && #[trigger] r.packets[k] is ReliableSlice implies {
        let mk = r.packets[k]->message_id;
        let ik = r.packets[k]->slice_index;
        &&& m0.contains_key(mk)
        &&& m0[mk] is Sliced
        &&& r.packets[k]->ReliableSlice_num_slices == m0[mk]->num_slices
        &&& ik < m0[mk]->num_slices
        &&& !m0[mk]->acked[ik as int]
        &&& r.packets[k]->payload == slice_payload(m0[mk]->Sliced_message, m0[mk]->num_slices, ik)
    } by {
        if k < st.packets.len() {
            assert(r.packets[k] == st.packets[k]);
        }
    }
}

/// The encoded size of a list of small messages with their ids.
pub open spec fn small_sizes(ms: Seq<(u64, Seq<u8>)>) -> nat
    decreases ms.len(),
{
    if ms.len() == 0 {
        0
    } else {
        small_sizes(ms.drop_last()) + small_size(ms.last().0, ms.last().1)
    }
}

/// Every queued small message, with its id, fits in a packet by itself.
pub open spec fn small_messages_fit(m: Map<u64, UnackedView>) -> bool {
    forall|id: u64| #[trigger] m.contains_key(id) && m[id] is Small ==> small_size(id, m[id].message()) <= SLICE_SIZE
}

/// A packet of small messages carries at least one, within a slice's size.
pub open spec fn small_packet_fits(p: PacketView) -> bool {
    p is SmallReliable ==> p->messages.len() > 0 && small_sizes(p->messages) <= SLICE_SIZE
}

spec fn fits_so_far(st: SendScan) -> bool {
    &&& st.small_bytes == small_sizes(st.small)
    &&& st.small_bytes <= SLICE_SIZE
    &&& small_messages_fit(st.unacked)
    &&& forall|k: int| 0 <= k < st.packets.len() ==> small_packet_fits(#[trigger] st.packets[k])
}

proof fn lemma_slices_fit(
    channel_id: u8,
    resend: u128,
    now: u128,
    id: u64,
    message: Seq<u8>,
    n: nat,
    acked: Seq<bool>,
    start: nat,
    i: int,
    ss: SliceScan,
)
    requires
        fits_so_far(ss.st),
    ensures
        fits_so_far(scan_slices(channel_id, resend, now, id, message, n, acked, start, i, ss).st),
        scan_slices(channel_id, resend, now, id, message, n, acked, start, i, ss).st.unacked == ss.st.unacked,
    decreases n - i,
{
    if i >= n || i < 0 || ss.st.available < SLICE_SIZE {
    } else {
        let idx = ((start + i) % (n as int)) as nat;
        if acked[idx as int] || sent_recently(now, ss.last_sent[idx as int], resend) {
            lemma_slices_fit(channel_id, resend, now, id, message, n, acked, start, i + 1, ss);
        } else {
            let payload = slice_payload(message, n, idx);
            let st = SendScan {
                packets: ss.st.packets.push(
                    PacketView::ReliableSlice {
                        sequence: ss.st.sequence,
                        channel_id,
                        message_id: id,
                        slice_index: idx,
                        num_slices: n,
                        payload,
                    },
                ),
                sequence: ss.st.sequence + 1,
                available: (ss.st.available - payload.len()) as nat,
                ..ss.st
            };
            assert forall|k: int| 0 <= k < st.packets.len() implies small_packet_fits(#[trigger] st.packets[k]) by {
                if k < ss.st.packets.len() {
                    assert(st.packets[k] == ss.st.packets[k]);
                }
            }
            lemma_slices_fit(
                channel_id,
                resend,
                now,
                id,
                message,
                n,
                acked,
                start,
                i + 1,
                SliceScan { st, last_sent: ss.last_sent.update(idx as int, Some(now)), next: (idx + 1nat % n) as nat },
            );
        }
    }
}

proof fn lemma_one_fit(channel_id: u8, resend: u128, now: u128, id: u64, st: SendScan)
    requires
        fits_so_far(st),
        st.unacked.contains_key(id),
    ensures
        fits_so_far(scan_one(channel_id, resend, now, id, st)),
        scan_one(channel_id, resend, now, id, st).unacked.dom() == st.unacked.dom(),
{
    let r = scan_one(channel_id, resend, now, id, st);
    match st.unacked[id] {
        UnackedView::Small { message, last_sent } => {
            if st.available < message.len() || sent_recently(now, last_sent, resend) {
            } else {
                let size = small_size(id, message);
                assert(st.unacked[id].message() == message);
                assert(size <= SLICE_SIZE);
                if st.small_bytes + size > SLICE_SIZE {
                    assert(st.small.len() > 0);
                    let one = seq![(id, message)];
                    assert(one.drop_last().len() == 0);
                    assert(small_sizes(one.drop_last()) == 0);
                    assert(one.last() == (id, message));
                    assert(small_sizes(one) == size);
                } else {
                    assert(st.small.push((id, message)).drop_last() =~= st.small);
                }
                assert forall|k: int| 0 <= k < r.packets.len() implies small_packet_fits(#[trigger] r.packets[k]) by {
                    if k < st.packets.len() {
                        assert(r.packets[k] == st.packets[k]);
                    }
                }
                assert forall|j: u64| #[trigger] r.unacked.contains_key(j) && r.unacked[j] is Small implies small_size(
                    j,
                    r.unacked[j].message(),
                ) <= SLICE_SIZE by {
                    if j != id {
                        assert(st.unacked.contains_key(j));
                    }
                }
                assert(r.unacked.dom() =~= st.unacked.dom());
            }
        },
        UnackedView::Sliced { message, num_slices, next_slice_to_send, acked, last_sent, .. } => {
            lemma_slices_fit(
                channel_id,
                resend,
                now,
                id,
                message,
                num_slices,
                acked,
                next_slice_to_send,
                0,
                SliceScan { st, last_sent, next: next_slice_to_send },
            );
            assert forall|j: u64| #[trigger] r.unacked.contains_key(j) && r.unacked[j] is Small implies small_size(
                j,
                r.unacked[j].message(),
            ) <= SLICE_SIZE by {
                assert(j != id);
                assert(st.unacked.contains_key(j));
            }
            assert(r.unacked.dom() =~= st.unacked.dom());
        },
    }
}

proof fn lemma_keys_fit(channel_id: u8, resend: u128, now: u128, keys: Seq<u64>, j: int, st: SendScan)
    requires
        fits_so_far(st),
        forall|i: int| 0 <= i < keys.len() ==> st.unacked.contains_key(#[trigger] keys[i]),
    ensures
        fits_so_far(scan_keys(channel_id, resend, now, keys, j, st)),
    decreases keys.len() - j,
{
    if j >= keys.len() || j < 0 {
    } else {
        lemma_one_fit(channel_id, resend, now, keys[j], st);
        let st1 = scan_one(channel_id, resend, now, keys[j], st);
        assert forall|i: int| 0 <= i < keys.len() implies st1.unacked.contains_key(#[trigger] keys[i]) by {
            assert(st.unacked.contains_key(keys[i]));
        }
        lemma_keys_fit(channel_id, resend, now, keys, j + 1, st1);
    }
}

/// When every queued small message fits in a packet by itself, every
/// packet of small messages that a send pass makes carries at least one
/// message, and its messages with their ids fit in a slice's size.
pub proof fn lemma_send_pass_small_packets(v: SendChannelView, keys: Seq<u64>, sequence: nat, available: nat, now: u128)
    requires
        increasing_keys(keys, v.unacked.dom()),
        small_messages_fit(v.unacked),
    ensures
        forall|k: int|
            0 <= k < send_scan(v, keys, sequence, available, now).packets.len() ==> small_packet_fits(
                #[trigger] send_scan(v, keys, sequence, available, now).packets[k],
            ),
{
    let st0 = SendScan { packets: seq![], small: seq![], small_bytes: 0, sequence, available, unacked: v.unacked };
    assert forall|i: int| 0 <= i < keys.len() implies v.unacked.contains_key(#[trigger] keys[i]) by {
        assert(keys.to_set().contains(keys[i]));
    }
    lemma_keys_fit(v.channel_id, v.resend_time, now, keys, 0, st0);
    let st = scan_keys(v.channel_id, v.resend_time, now, keys, 0, st0);
    let r = scan_finish(v.channel_id, st);
    assert forall|k: int| 0 <= k < r.packets.len() implies small_packet_fits(#[trigger] r.packets[k]) by {
        if k < st.packets.len() {
            assert(r.packets[k] == st.packets[k]);
        }
    }
}

/// The ids of a list of small messages, in order.
pub open spec fn message_ids(ms: Seq<(u64, Seq<u8>)>) -> Seq<u64> {
    ms.map_values(|m: (u64, Seq<u8>)| m.0)
}

/// The ids of the small messages in a list of packets, packet after packet.
pub open spec fn small_ids(ps: Seq<PacketView>) -> Seq<u64>
    decreases ps.len(),
{
    if ps.len() == 0 {
        Seq::empty()
    } else {
        small_ids(ps.drop_last()) + match ps.last() {
            PacketView::SmallReliable { messages, .. } => message_ids(messages),
            PacketView::ReliableSlice { .. } => Seq::empty(),
        }
    }
}

spec fn ordered_below(st: SendScan, b: int) -> bool {
    let all = small_ids(st.packets) + message_ids(st.small);
    &&& forall|i: int, j: int| 0 <= i < j < all.len() ==> all[i] < all[j]
    &&& forall|i: int| 0 <= i < all.len() ==> all[i] < b
}

proof fn lemma_slices_ids(
    channel_id: u8,
    resend: u128,
    now: u128,
    id: u64,
    message: Seq<u8>,
    n: nat,
    acked: Seq<bool>,
    start: nat,
    i: int,
    ss: SliceScan,
)
    ensures
        small_ids(scan_slices(channel_id, resend, now, id, message, n, acked, start, i, ss).st.packets) == small_ids(
            ss.st.packets,
        ),
        scan_slices(channel_id, resend, now, id, message, n, acked, start, i, ss).st.small == ss.st.small,
        scan_slices(channel_id, resend, now, id, message, n, acked, start, i, ss).st.unacked == ss.st.unacked,
    decreases n - i,
{
    if i >= n || i < 0 || ss.st.available < SLICE_SIZE {
    } else {
        let idx = ((start + i) % (n as int)) as nat;
        if acked[idx as int] || sent_recently(now, ss.last_sent[idx as int], resend) {
            lemma_slices_ids(channel_id, resend, now, id, message, n, acked, start, i + 1, ss);
        } else {
            let payload = slice_payload(message, n, idx);
            let st = SendScan {
                packets: ss.st.packets.push(
                    PacketView::ReliableSlice {
                        sequence: ss.st.sequence,
                        channel_id,
                        message_id: id,
                        slice_index: idx,
                        num_slices: n,
                        payload,
                    },
                ),
                sequence: ss.st.sequence + 1,
                available: (ss.st.available - payload.len()) as nat,
                ..ss.st
            };
            assert(st.packets.drop_last() =~= ss.st.packets);
            assert(small_ids(st.packets) =~= small_ids(ss.st.packets));
            lemma_slices_ids(
                channel_id,
                resend,
                now,
                id,
                message,
                n,
                acked,
                start,
                i + 1,
                SliceScan { st, last_sent: ss.last_sent.update(idx as int, Some(now)), next: (idx + 1nat % n) as nat },
            );
        }
    }
}

proof fn lemma_one_ordered(channel_id: u8, resend: u128, now: u128, id: u64, st: SendScan)
    requires
        ordered_below(st, id as int),
    ensures
        ordered_below(scan_one(channel_id, resend, now, id, st), id + 1),
{
    let r = scan_one(channel_id, resend, now, id, st);
    let all = small_ids(st.packets) + message_ids(st.small);
    match st.unacked[id] {
        UnackedView::Small { message, last_sent } => {
            if st.available < message.len() || sent_recently(now, last_sent, resend) {
            } else {
                let size = small_size(id, message);
                if st.small_bytes + size > SLICE_SIZE {
                    assert(r.packets.drop_last() =~= st.packets);
                    assert(small_ids(r.packets) =~= all);
                    assert(small_ids(r.packets) + message_ids(r.small) =~= all.push(id));
                } else {
                    assert(message_ids(r.small) =~= message_ids(st.small).push(id));
                    assert(small_ids(r.packets) + message_ids(r.small) =~= all.push(id));
                }
            }
        },
        UnackedView::Sliced { message, num_slices, next_slice_to_send, acked, last_sent, .. } => {
            lemma_slices_ids(
                channel_id,
                resend,
                now,
                id,
                message,
                num_slices,
                acked,
                next_slice_to_send,
                0,
                SliceScan { st, last_sent, next: next_slice_to_send },
            );
        },
    }
}

proof fn lemma_keys_ordered(channel_id: u8, resend: u128, now: u128, keys: Seq<u64>, j: int, st: SendScan, b: int)
    requires
        0 <= j <= keys.len(),
        forall|a: int, c: int| 0 <= a < c < keys.len() ==> keys[a] < keys[c],
        ordered_below(st, b),
        b <= u64::MAX + 1,
        forall|i: int| j <= i < keys.len() ==> b <= #[trigger] keys[i],
    ensures
        ordered_below(scan_keys(channel_id, resend, now, keys, j, st), u64::MAX + 1),
    decreases keys.len() - j,
{
    if j < keys.len() {
        let id = keys[j];
        lemma_one_ordered(channel_id, resend, now, id, st);
        assert forall|i: int| j + 1 <= i < keys.len() implies id + 1 <= #[trigger] keys[i] by {
            assert(keys[j] < keys[i]);
        }
        lemma_keys_ordered(channel_id, resend, now, keys, j + 1, scan_one(channel_id, resend, now, id, st), id + 1);
    }
}

/// The small messages of a send pass go out in increasing id order, within
/// each packet and from one packet to the next.
pub proof fn lemma_send_pass_small_order(v: SendChannelView, keys: Seq<u64>, sequence: nat, available: nat, now: u128)
    requires
        increasing_keys(keys, v.unacked.dom()),
    ensures
        ({
            let ids = small_ids(send_scan(v, keys, sequence, available, now).packets);
            forall|i: int, j: int| 0 <= i < j < ids.len() ==> ids[i] < ids[j]
        }),
{
    let st0 = SendScan { packets: seq![], small: seq![], small_bytes: 0, sequence, available, unacked: v.unacked };
    assert(small_ids(st0.packets) + message_ids(st0.small) =~= Seq::<u64>::empty());
    lemma_keys_ordered(v.channel_id, v.resend_time, now, keys, 0, st0, 0);
    let st = scan_keys(v.channel_id, v.resend_time, now, keys, 0, st0);
    let r = scan_finish(v.channel_id, st);
    if st.small.len() > 0 {
        assert(r.packets.drop_last() =~= st.packets);
        assert(small_ids(r.packets) =~= small_ids(st.packets) + message_ids(st.small));
    } else {
        assert(message_ids(st.small) =~= Seq::<u64>::empty());
        assert(small_ids(st.packets) + message_ids(st.small) =~= small_ids(st.packets));
    }
}

/// Small message `k` is queued in `m0` and due at `now`: never sent, or
/// sent at least `resend` before.
pub open spec fn small_due(m0: Map<u64, UnackedView>, now: u128, resend: u128, k: u64) -> bool {
    &&& m0.contains_key(k)
    &&& m0[k] is Small
    &&& !sent_recently(now, m0[k]->Small_last_sent, resend)
}

/// Small message `k` is queued in `m` with send time `now`.
pub open spec fn small_stamped(m: Map<u64, UnackedView>, now: u128, k: u64) -> bool {
    &&& m.contains_key(k)
    &&& m[k] is Small
    &&& m[k]->Small_last_sent == Some(now)
}

/// Slice `idx` of message `k` is queued in `m0` and due at `now`.
pub open spec fn slice_due(m0: Map<u64, UnackedView>, now: u128, resend: u128, k: u64, idx: nat) -> bool {
    &&& m0.contains_key(k)
    &&& m0[k] is Sliced
    &&& !sent_recently(now, m0[k]->Sliced_last_sent[idx as int], resend)
}

/// Slice `idx` of message `k` is queued in `m` with send time `now`.
pub open spec fn slice_stamped(m: Map<u64, UnackedView>, now: u128, k: u64, idx: nat) -> bool {
    &&& m.contains_key(k)
    &&& m[k] is Sliced
    &&& idx < m[k]->Sliced_last_sent.len()
    &&& m[k]->Sliced_last_sent[idx as int] == Some(now)
}

spec fn small_timed(st: SendScan, m0: Map<u64, UnackedView>, now: u128, resend: u128) -> bool {
    let ids = small_ids(st.packets) + message_ids(st.small);
    forall|i: int| 0 <= i < ids.len() ==> small_due(m0, now, resend, #[trigger] ids[i]) && small_stamped(st.unacked, now, ids[i])
}

spec fn slices_timed(st: SendScan, m0: Map<u64, UnackedView>, now: u128, resend: u128) -> bool {
    forall|i: int|
        0 <= i < st.packets.len() && #[trigger] st.packets[i] is ReliableSlice ==> {
            &&& slice_due(m0, now, resend, st.packets[i]->message_id, st.packets[i]->slice_index)
            &&& slice_stamped(st.unacked, now, st.packets[i]->message_id, st.packets[i]->slice_index)
        }
}

/// During the slice pass of message `id`: its slices sent so far are due
/// and stamped in the pass's send times, the others as in `slices_timed`,
/// and each send time is the one from before the pass or, for a slice that
/// was due, `now`.
spec fn slices_timed_during(
    ss: SliceScan,
    id: u64,
    orig: Seq<Option<u128>>,
    m0: Map<u64, UnackedView>,
    now: u128,
    resend: u128,
) -> bool {
    &&& ss.last_sent.len() == orig.len()
    &&& forall|x: int|
        0 <= x < orig.len() ==> #[trigger] ss.last_sent[x] == orig[x] || (ss.last_sent[x] == Some(now)
            && !sent_recently(now, orig[x], resend))
    &&& forall|i: int|
        0 <= i < ss.st.packets.len() && #[trigger] ss.st.packets[i] is ReliableSlice ==> {
            let k = ss.st.packets[i]->message_id;
            let idx = ss.st.packets[i]->slice_index;
            &&& slice_due(m0, now, resend, k, idx)
            &&& k == id ==> idx < orig.len() && ss.last_sent[idx as int] == Some(now)
            &&& k != id ==> slice_stamped(ss.st.unacked, now, k, idx)
        }
}

proof fn lemma_slices_timed(
    channel_id: u8,
    resend: u128,
    now: u128,
    id: u64,
    message: Seq<u8>,
    n: nat,
    acked: Seq<bool>,
    start: nat,
    i: int,
    ss: SliceScan,
    orig: Seq<Option<u128>>,
    m0: Map<u64, UnackedView>,
)
    requires
        slices_timed_during(ss, id, orig, m0, now, resend),
        m0.contains_key(id),
        m0[id] is Sliced,
        m0[id]->Sliced_last_sent == orig,
        orig.len() == n,
    ensures
        slices_timed_during(
            scan_slices(channel_id, resend, now, id, message, n, acked, start, i, ss),
            id,
            orig,
            m0,
            now,
            resend,
        ),
        scan_slices(channel_id, resend, now, id, message, n, acked, start, i, ss).st.unacked == ss.st.unacked,
    decreases n - i,
{
    if i >= n || i < 0 || ss.st.available < SLICE_SIZE {
    } else {
        let idx = ((start + i) % (n as int)) as nat;
        if acked[idx as int] || sent_recently(now, ss.last_sent[idx as int], resend) {
            lemma_slices_timed(channel_id, resend, now, id, message, n, acked, start, i + 1, ss, orig, m0);
        } else {
            let payload = slice_payload(message, n, idx);
            let p = PacketView::ReliableSlice {
                sequence: ss.st.sequence,
                channel_id,
                message_id: id,
                slice_index: idx,
                num_slices: n,
                payload,
            };
            let st = SendScan {
                packets: ss.st.packets.push(p),
                sequence: ss.st.sequence + 1,
                available: (ss.st.available - payload.len()) as nat,
                ..ss.st
            };
            let last = ss.last_sent.update(idx as int, Some(now));
            let ss1 = SliceScan { st, last_sent: last, next: (idx + 1nat % n) as nat };
            assert(ss.last_sent[idx as int] == orig[idx as int] || ss.last_sent[idx as int] == Some(now));
            assert(!sent_recently(now, orig[idx as int], resend));
            assert forall|x: int| 0 <= x < orig.len() implies #[trigger] last[x] == orig[x] || (last[x] == Some(now)
                && !sent_recently(now, orig[x], resend)) by {
                if x != idx {
                    assert(last[x] == ss.last_sent[x]);
                }
            }
            assert forall|k: int| 0 <= k < st.packets.len() && #[trigger] st.packets[k] is ReliableSlice implies {
                let mk = st.packets[k]->message_id;
                let ik = st.packets[k]->slice_index;
                &&& slice_due(m0, now, resend, mk, ik)
                &&& mk == id ==> ik < orig.len() && last[ik as int] == Some(now)
                &&& mk != id ==> slice_stamped(st.unacked, now, mk, ik)
            } by {
                if k < ss.st.packets.len() {
                    assert(st.packets[k] == ss.st.packets[k]);
                    let ik = st.packets[k]->slice_index;
                    if st.packets[k]->message_id == id && ik != idx {
                        assert(last[ik as int] == ss.last_sent[ik as int]);
                    }
                }
            }
            lemma_slices_timed(channel_id, resend, now, id, message, n, acked, start, i + 1, ss1, orig, m0);
        }
    }
}

proof fn lemma_one_timed(channel_id: u8, resend: u128, now: u128, id: u64, st: SendScan, m0: Map<u64, UnackedView>)
    requires
        small_timed(st, m0, now, resend),
        slices_timed(st, m0, now, resend),
        st.unacked.contains_key(id),
        m0.contains_key(id),
        st.unacked[id] == m0[id],
        m0[id] is Sliced ==> m0[id]->Sliced_last_sent.len() == m0[id]->num_slices,
    ensures
        small_timed(scan_one(channel_id, resend, now, id, st), m0, now, resend),
        slices_timed(scan_one(channel_id, resend, now, id, st), m0, now, resend),
        scan_one(channel_id, resend, now, id, st).unacked == st.unacked.insert(
            id,
            scan_one(channel_id, resend, now, id, st).unacked[id],
        ),
{
    let r = scan_one(channel_id, resend, now, id, st);
    let ids = small_ids(st.packets) + message_ids(st.small);
    match st.unacked[id] {
        UnackedView::Small { message, last_sent } => {
            if st.available < message.len() || sent_recently(now, last_sent, resend) {
                assert(r.unacked =~= st.unacked.insert(id, r.unacked[id]));
            } else {
                let size = small_size(id, message);
                let ids1 = small_ids(r.packets) + message_ids(r.small);
                if st.small_bytes + size > SLICE_SIZE {
                    assert(r.packets.drop_last() =~= st.packets);
                    assert(small_ids(r.packets) =~= ids);
                    assert(ids1 =~= ids.push(id));
                } else {
                    assert(message_ids(r.small) =~= message_ids(st.small).push(id));
                    assert(ids1 =~= ids.push(id));
                }
                assert forall|i: int| 0 <= i < ids1.len() implies small_due(m0, now, resend, #[trigger] ids1[i])
                    && small_stamped(r.unacked, now, ids1[i]) by {
                    if i < ids.len() {
                        assert(ids1[i] == ids[i]);
                        assert(small_due(m0, now, resend, ids[i]) && small_stamped(st.unacked, now, ids[i]));
                    }
                }
                assert forall|k: int| 0 <= k < r.packets.len() && #[trigger] r.packets[k] is ReliableSlice implies {
                    &&& slice_due(m0, now, resend, r.packets[k]->message_id, r.packets[k]->slice_index)
                    &&& slice_stamped(r.unacked, now, r.packets[k]->message_id, r.packets[k]->slice_index)
                } by {
                    assert(k < st.packets.len());
                    assert(r.packets[k] == st.packets[k]);
                }
            }
        },
        UnackedView::Sliced { message, num_slices, num_acked_slices, next_slice_to_send, acked, last_sent } => {
            let ss0 = SliceScan { st, last_sent, next: next_slice_to_send };
            lemma_slices_timed(
                channel_id,
                resend,
                now,
                id,
                message,
                num_slices,
                acked,
                next_slice_to_send,
                0,
                ss0,
                last_sent,
                m0,
            );
            lemma_slices_ids(channel_id, resend, now, id, message, num_slices, acked, next_slice_to_send, 0, ss0);
            let ss = scan_slices(channel_id, resend, now, id, message, num_slices, acked, next_slice_to_send, 0, ss0);
            assert forall|i: int| 0 <= i < ids.len() implies small_due(m0, now, resend, #[trigger] ids[i])
                && small_stamped(r.unacked, now, ids[i]) by {
                assert(small_stamped(st.unacked, now, ids[i]));
                assert(ids[i] != id);
            }
            assert(small_ids(r.packets) + message_ids(r.small) == ids);
            assert forall|k: int| 0 <= k < r.packets.len() && #[trigger] r.packets[k] is ReliableSlice implies {
                &&& slice_due(m0, now, resend, r.packets[k]->message_id, r.packets[k]->slice_index)
                &&& slice_stamped(r.unacked, now, r.packets[k]->message_id, r.packets[k]->slice_index)
            } by {
                assert(r.packets[k] == ss.st.packets[k]);
            }
            assert(r.unacked =~= st.unacked.insert(id, r.unacked[id]));
        },
    }
}

proof fn lemma_keys_timed(
    channel_id: u8,
    resend: u128,
    now: u128,
    keys: Seq<u64>,
    j: int,
    st: SendScan,
    m0: Map<u64, UnackedView>,
)
    requires
        0 <= j <= keys.len(),
        forall|a: int, c: int| 0 <= a < c < keys.len() ==> keys[a] < keys[c],
        small_timed(st, m0, now, resend),
        slices_timed(st, m0, now, resend),
        forall|i: int| j <= i < keys.len() ==> st.unacked.contains_key(#[trigger] keys[i]) && m0.contains_key(keys[i])
            && st.unacked[keys[i]] == m0[keys[i]],
        forall|k: u64| #[trigger] m0.contains_key(k) && m0[k] is Sliced ==> m0[k]->Sliced_last_sent.len()
            == m0[k]->num_slices,
    ensures
        small_timed(scan_keys(channel_id, resend, now, keys, j, st), m0, now, resend),
        slices_timed(scan_keys(channel_id, resend, now, keys, j, st), m0, now, resend),
    decreases keys.len() - j,
{
    if j < keys.len() {
        let id = keys[j];
        lemma_one_timed(channel_id, resend, now, id, st, m0);
        let st1 = scan_one(channel_id, resend, now, id, st);
        assert forall|i: int| j + 1 <= i < keys.len() implies st1.unacked.contains_key(#[trigger] keys[i])
            && m0.contains_key(keys[i]) && st1.unacked[keys[i]] == m0[keys[i]] by {
            assert(keys[j] < keys[i]);
        }
        lemma_keys_timed(channel_id, resend, now, keys, j + 1, st1, m0);
    }
}

/// A send pass sends only what is due and stamps what it sends: every
/// small message it sends was queued and never sent, or sent at least the
/// resend time before, and its send time becomes `now`; so is every slice.
pub proof fn lemma_send_pass_due(v: SendChannelView, keys: Seq<u64>, sequence: nat, available: nat, now: u128)
    requires
        increasing_keys(keys, v.unacked.dom()),
        forall|k: u64| #[trigger] v.unacked.contains_key(k) ==> v.unacked[k].wf(),
    ensures
        ({
            let r = send_scan(v, keys, sequence, available, now);
            let ids = small_ids(r.packets);
            &&& forall|i: int|
                0 <= i < ids.len() ==> small_due(v.unacked, now, v.resend_time, #[trigger] ids[i]) && small_stamped(
                    r.unacked,
                    now,
                    ids[i],
                )
            &&& forall|i: int|
                0 <= i < r.packets.len() && #[trigger] r.packets[i] is ReliableSlice ==> {
                    &&& slice_due(v.unacked, now, v.resend_time, r.packets[i]->message_id, r.packets[i]->slice_index)
                    &&& slice_stamped(r.unacked, now, r.packets[i]->message_id, r.packets[i]->slice_index)
                }
        }),
{
    let m0 = v.unacked;
    let st0 = SendScan { packets: seq![], small: seq![], small_bytes: 0, sequence, available, unacked: m0 };
    assert(small_ids(st0.packets) + message_ids(st0.small) =~= Seq::<u64>::empty());
    assert forall|i: int| 0 <= i < keys.len() implies m0.contains_key(#[trigger] keys[i]) by {
        assert(keys.to_set().contains(keys[i]));
    }
    assert forall|k: u64| #[trigger] m0.contains_key(k) && m0[k] is Sliced implies m0[k]->Sliced_last_sent.len()
        == m0[k]->num_slices by {
        assert(m0[k].wf());
    }
    lemma_keys_timed(v.channel_id, v.resend_time, now, keys, 0, st0, m0);
    let st = scan_keys(v.channel_id, v.resend_time, now, keys, 0, st0);
    let r = scan_finish(v.channel_id, st);
    if st.small.len() > 0 {
        assert(r.packets.drop_last() =~= st.packets);
        assert(small_ids(r.packets) =~= small_ids(st.packets) + message_ids(st.small));
    } else {
        assert(message_ids(st.small) =~= Seq::<u64>::empty());
        assert(small_ids(st.packets) + message_ids(st.small) =~= small_ids(st.packets));
    }
    assert forall|i: int| 0 <= i < r.packets.len() && #[trigger] r.packets[i] is ReliableSlice implies {
        &&& slice_due(m0, now, v.resend_time, r.packets[i]->message_id, r.packets[i]->slice_index)
        &&& slice_stamped(r.unacked, now, r.packets[i]->message_id, r.packets[i]->slice_index)
    } by {
        assert(i < st.packets.len());
        assert(r.packets[i] == st.packets[i]);
    }
}

/// Nothing is sent again before the resend time has passed: when a second
/// send pass follows a first one on the channel it left, less than the
/// resend time later, no small message and no slice goes out in both.
pub proof fn lemma_not_resent_early(
    v: SendChannelView,
    keys1: Seq<u64>,
    keys2: Seq<u64>,
    sequence1: nat,
    available1: nat,
    sequence2: nat,
    available2: nat,
    t1: u128,
    t2: u128,
)
    requires
        increasing_keys(keys1, v.unacked.dom()),
        forall|k: u64| #[trigger] v.unacked.contains_key(k) ==> v.unacked[k].wf(),
        increasing_keys(keys2, send_scan(v, keys1, sequence1, available1, t1).unacked.dom()),
        forall|k: u64| #[trigger] send_scan(v, keys1, sequence1, available1, t1).unacked.contains_key(k)
            ==> send_scan(v, keys1, sequence1, available1, t1).unacked[k].wf(),
        t1 <= t2,
        t2 - t1 < v.resend_time,
    ensures
        ({
            let r1 = send_scan(v, keys1, sequence1, available1, t1);
            let v2 = SendChannelView { unacked: r1.unacked, ..v };
            let r2 = send_scan(v2, keys2, sequence2, available2, t2);
            &&& forall|i: int, j: int|
                0 <= i < small_ids(r1.packets).len() && 0 <= j < small_ids(r2.packets).len() ==> #[trigger] small_ids(
                    r1.packets,
                )[i] != #[trigger] small_ids(r2.packets)[j]
            &&& forall|i: int, j: int|
                0 <= i < r1.packets.len() && 0 <= j < r2.packets.len() && #[trigger] r1.packets[i] is ReliableSlice
                    && #[trigger] r2.packets[j] is ReliableSlice ==> r1.packets[i]->message_id
                    != r2.packets[j]->message_id || r1.packets[i]->slice_index != r2.packets[j]->slice_index
        }),
{
    let r1 = send_scan(v, keys1, sequence1, available1, t1);
    let v2 = SendChannelView { unacked: r1.unacked, ..v };
    let r2 = send_scan(v2, keys2, sequence2, available2, t2);
    lemma_send_pass_due(v, keys1, sequence1, available1, t1);
    lemma_send_pass_due(v2, keys2, sequence2, available2, t2);
    let ids1 = small_ids(r1.packets);
    let ids2 = small_ids(r2.packets);
    assert forall|i: int, j: int| 0 <= i < ids1.len() && 0 <= j < ids2.len() implies #[trigger] ids1[i]
        != #[trigger] ids2[j] by {
        assert(small_stamped(r1.unacked, t1, ids1[i]));
        assert(small_due(r1.unacked, t2, v.resend_time, ids2[j]));
    }
    assert forall|i: int, j: int|
        0 <= i < r1.packets.len() && 0 <= j < r2.packets.len() && #[trigger] r1.packets[i] is ReliableSlice
            && #[trigger] r2.packets[j] is ReliableSlice implies r1.packets[i]->message_id
            != r2.packets[j]->message_id || r1.packets[i]->slice_index != r2.packets[j]->slice_index by {
        assert(slice_stamped(r1.unacked, t1, r1.packets[i]->message_id, r1.packets[i]->slice_index));
        assert(slice_due(r1.unacked, t2, v.resend_time, r2.packets[j]->message_id, r2.packets[j]->slice_index));
    }
}

/// The most bytes that a send pass takes for a queued message: a small
/// message's bytes, or a slice's size for each slice of a sliced one.
pub open spec fn message_cost(u: UnackedView) -> nat {
    match u {
        UnackedView::Small { message, .. } => message.len(),
        UnackedView::Sliced { num_slices, .. } => (SLICE_SIZE * num_slices) as nat,
    }
}

/// The most bytes that a send pass takes for the messages `keys[j..]`.
pub open spec fn keys_cost(m: Map<u64, UnackedView>, keys: Seq<u64>, j: int) -> nat
    decreases keys.len() - j,
{
    if j >= keys.len() || j < 0 {
        0
    } else {
        message_cost(m[keys[j]]) + keys_cost(m, keys, j + 1)
    }
}

proof fn lemma_slices_spend_bound(
    channel_id: u8,
    resend: u128,
    now: u128,
    id: u64,
    message: Seq<u8>,
    n: nat,
    acked: Seq<bool>,
    start: nat,
    i: int,
    ss: SliceScan,
)
    requires
        0 <= i <= n,
        SLICE_SIZE < message.len(),
        n == num_slices_for(message.len()),
    ensures
        scan_slices(channel_id, resend, now, id, message, n, acked, start, i, ss).st.available + SLICE_SIZE * (n - i)
            >= ss.st.available,
    decreases n - i,
{
    if i >= n || i < 0 || ss.st.available < SLICE_SIZE {
    } else {
        let idx = ((start + i) % (n as int)) as nat;
        if acked[idx as int] || sent_recently(now, ss.last_sent[idx as int], resend) {
            lemma_slices_spend_bound(channel_id, resend, now, id, message, n, acked, start, i + 1, ss);
        } else {
            let payload = slice_payload(message, n, idx);
            lemma_payload_len(message, n, idx);
            let st = SendScan {
                packets: ss.st.packets.push(
                    PacketView::ReliableSlice {
                        sequence: ss.st.sequence,
                        channel_id,
                        message_id: id,
                        slice_index: idx,
                        num_slices: n,
                        payload,
                    },
                ),
                sequence: ss.st.sequence + 1,
                available: (ss.st.available - payload.len()) as nat,
                ..ss.st
            };
            lemma_slices_spend_bound(
                channel_id,
                resend,
                now,
                id,
                message,
                n,
                acked,
                start,
                i + 1,
                SliceScan { st, last_sent: ss.last_sent.update(idx as int, Some(now)), next: (idx + 1nat % n) as nat },
            );
        }
    }
}

spec fn pending_ids(st: SendScan) -> Seq<u64> {
    small_ids(st.packets) + message_ids(st.small)
}

proof fn lemma_one_complete(
    channel_id: u8,
    resend: u128,
    now: u128,
    id: u64,
    st: SendScan,
    m0: Map<u64, UnackedView>,
    rest: nat,
)
    requires
        m0.contains_key(id),
        st.unacked.contains_key(id),
        st.unacked[id] == m0[id],
        m0[id].wf(),
        st.available >= message_cost(m0[id]) + rest,
    ensures
        scan_one(channel_id, resend, now, id, st).available >= rest,
        small_due(m0, now, resend, id) ==> pending_ids(scan_one(channel_id, resend, now, id, st)).contains(id),
        forall|x: u64| #[trigger] pending_ids(st).contains(x) ==> pending_ids(scan_one(channel_id, resend, now, id, st)).contains(x),
        forall|k: u64, x: nat| #[trigger] has_slice(st.packets, k, x) ==> has_slice(
            scan_one(channel_id, resend, now, id, st).packets,
            k,
            x,
        ),
        forall|x: nat| #[trigger] slice_owed(m0, now, resend, id, x) ==> has_slice(
            scan_one(channel_id, resend, now, id, st).packets,
            id,
            x,
        ),
        scan_one(channel_id, resend, now, id, st).unacked == st.unacked.insert(
            id,
            scan_one(channel_id, resend, now, id, st).unacked[id],
        ),
{
    let r = scan_one(channel_id, resend, now, id, st);
    let all = pending_ids(st);
    match st.unacked[id] {
        UnackedView::Small { message, last_sent } => {
            if st.available < message.len() || sent_recently(now, last_sent, resend) {
                assert(r.unacked =~= st.unacked.insert(id, r.unacked[id]));
            } else {
                let size = small_size(id, message);
                if st.small_bytes + size > SLICE_SIZE {
                    assert(r.packets.drop_last() =~= st.packets);
                    assert(small_ids(r.packets) =~= all);
                    assert(pending_ids(r) =~= all.push(id));
                    assert forall|k: u64, x: nat| #[trigger] has_slice(st.packets, k, x) implies has_slice(r.packets, k, x) by {
                        lemma_has_slice_push(st.packets, r.packets.last(), k, x);
                        assert(st.packets.push(r.packets.last()) =~= r.packets);
                    }
                } else {
                    assert(message_ids(r.small) =~= message_ids(st.small).push(id));
                    assert(pending_ids(r) =~= all.push(id));
                }
                assert(pending_ids(r)[all.len() as int] == id);
                assert forall|x: u64| #[trigger] all.contains(x) implies pending_ids(r).contains(x) by {
                    let i = choose|i: int| 0 <= i < all.len() && all[i] == x;
                    assert(pending_ids(r)[i] == x);
                }
            }
        },
        UnackedView::Sliced { message, num_slices, num_acked_slices, next_slice_to_send, acked, last_sent } => {
            let ss0 = SliceScan { st, last_sent, next: next_slice_to_send };
            lemma_slices_spend_bound(
                channel_id,
                resend,
                now,
                id,
                message,
                num_slices,
                acked,
                next_slice_to_send,
                0,
                ss0,
            );
            lemma_slices_ids(channel_id, resend, now, id, message, num_slices, acked, next_slice_to_send, 0, ss0);
            assert(pending_ids(r) == all);
            assert(r.unacked =~= st.unacked.insert(id, r.unacked[id]));
            lemma_slices_complete(
                channel_id,
                resend,
                now,
                id,
                message,
                num_slices,
                acked,
                next_slice_to_send,
                0,
                ss0,
                last_sent,
                rest,
            );
            assert forall|x: nat| #[trigger] slice_owed(m0, now, resend, id, x) implies has_slice(r.packets, id, x) by {
                let j = lemma_slice_position(next_slice_to_send, num_slices, x);
                assert(!acked[(next_slice_to_send + j) % (num_slices as int)]);
            }
        },
    }
}

proof fn lemma_keys_complete(
    channel_id: u8,
    resend: u128,
    now: u128,
    keys: Seq<u64>,
    j: int,
    st: SendScan,
    m0: Map<u64, UnackedView>,
)
    requires
        0 <= j <= keys.len(),
        forall|a: int, c: int| 0 <= a < c < keys.len() ==> keys[a] < keys[c],
        forall|i: int| j <= i < keys.len() ==> st.unacked.contains_key(#[trigger] keys[i]) && m0.contains_key(keys[i])
            && st.unacked[keys[i]] == m0[keys[i]],
        forall|k: u64| #[trigger] m0.contains_key(k) ==> m0[k].wf(),
        st.available >= keys_cost(m0, keys, j),
        forall|i: int| 0 <= i < j && small_due(m0, now, resend, #[trigger] keys[i]) ==> pending_ids(st).contains(keys[i]),
        forall|i: int, x: nat|
            0 <= i < j && #[trigger] slice_owed(m0, now, resend, keys[i], x) ==> has_slice(st.packets, keys[i], x),
    ensures
        forall|i: int|
            0 <= i < keys.len() && small_due(m0, now, resend, #[trigger] keys[i]) ==> pending_ids(
                scan_keys(channel_id, resend, now, keys, j, st),
            ).contains(keys[i]),
        forall|i: int, x: nat|
            0 <= i < keys.len() && #[trigger] slice_owed(m0, now, resend, keys[i], x) ==> has_slice(
                scan_keys(channel_id, resend, now, keys, j, st).packets,
                keys[i],
                x,
            ),
    decreases keys.len() - j,
{
    if j < keys.len() {
        let id = keys[j];
        lemma_one_complete(channel_id, resend, now, id, st, m0, keys_cost(m0, keys, j + 1));
        let st1 = scan_one(channel_id, resend, now, id, st);
        assert forall|i: int| j + 1 <= i < keys.len() implies st1.unacked.contains_key(#[trigger] keys[i])
            && m0.contains_key(keys[i]) && st1.unacked[keys[i]] == m0[keys[i]] by {
            assert(keys[j] < keys[i]);
        }
        assert forall|i: int| 0 <= i < j + 1 && small_due(m0, now, resend, #[trigger] keys[i]) implies pending_ids(
            st1,
        ).contains(keys[i]) by {
            if i < j {
                assert(pending_ids(st).contains(keys[i]));
            }
        }
        assert forall|i: int, x: nat|
            0 <= i < j + 1 && #[trigger] slice_owed(m0, now, resend, keys[i], x) implies has_slice(
            st1.packets,
            keys[i],
            x,
        ) by {
            if i < j {
                assert(has_slice(st.packets, keys[i], x));
            }
        }
        lemma_keys_complete(channel_id, resend, now, keys, j + 1, st1, m0);
    }
}

/// When the allowance covers every queued message (a small one's bytes, a
/// slice's size for each slice of a sliced one), a send pass sends every
/// small message and every slice not yet acknowledged that is due.
pub proof fn lemma_send_pass_sends_due(v: SendChannelView, keys: Seq<u64>, sequence: nat, available: nat, now: u128)
    requires
        increasing_keys(keys, v.unacked.dom()),
        forall|k: u64| #[trigger] v.unacked.contains_key(k) ==> v.unacked[k].wf(),
        available >= keys_cost(v.unacked, keys, 0),
    ensures
        forall|k: u64|
            small_due(v.unacked, now, v.resend_time, k) ==> #[trigger] small_ids(
                send_scan(v, keys, sequence, available, now).packets,
            ).contains(k),
        forall|k: u64, x: nat|
            #[trigger] slice_owed(v.unacked, now, v.resend_time, k, x) ==> has_slice(
                send_scan(v, keys, sequence, available, now).packets,
                k,
                x,
            ),
{
    let m0 = v.unacked;
    let st0 = SendScan { packets: seq![], small: seq![], small_bytes: 0, sequence, available, unacked: m0 };
    assert forall|i: int| 0 <= i < keys.len() implies m0.contains_key(#[trigger] keys[i]) by {
        assert(keys.to_set().contains(keys[i]));
    }
    lemma_keys_complete(v.channel_id, v.resend_time, now, keys, 0, st0, m0);
    let st = scan_keys(v.channel_id, v.resend_time, now, keys, 0, st0);
    let r = scan_finish(v.channel_id, st);
    if st.small.len() > 0 {
        assert(r.packets.drop_last() =~= st.packets);
        assert(small_ids(r.packets) =~= pending_ids(st));
    } else {
        assert(message_ids(st.small) =~= Seq::<u64>::empty());
        assert(pending_ids(st) =~= small_ids(st.packets));
    }
    assert forall|k: u64| small_due(m0, now, v.resend_time, k) implies #[trigger] small_ids(r.packets).contains(k) by {
        assert(keys.to_set().contains(k));
        let i = choose|i: int| 0 <= i < keys.len() && keys[i] == k;
        assert(small_due(m0, now, v.resend_time, keys[i]));
    }
    assert forall|k: u64, x: nat| #[trigger] slice_owed(m0, now, v.resend_time, k, x) implies has_slice(r.packets, k, x) by {
        assert(keys.to_set().contains(k));
        let i = choose|i: int| 0 <= i < keys.len() && keys[i] == k;
        assert(slice_owed(m0, now, v.resend_time, keys[i], x));
        assert(has_slice(st.packets, k, x));
        if st.small.len() > 0 {
            lemma_has_slice_push(st.packets, r.packets.last(), k, x);
            assert(st.packets.push(r.packets.last()) =~= r.packets);
        }
    }
}

/// Messages are sent again until acknowledged: each small message and each
/// slice that a send pass sent goes out again in a second pass on the
/// channel it left, once the resend time has passed, when the allowance
/// covers every queued message.
pub proof fn lemma_resent_after_resend_time(
    v: SendChannelView,
    keys1: Seq<u64>,
    keys2: Seq<u64>,
    sequence1: nat,
    available1: nat,
    sequence2: nat,
    available2: nat,
    t1: u128,
    t2: u128,
)
    requires
        increasing_keys(keys1, v.unacked.dom()),
        forall|k: u64| #[trigger] v.unacked.contains_key(k) ==> v.unacked[k].wf(),
        increasing_keys(keys2, send_scan(v, keys1, sequence1, available1, t1).unacked.dom()),
        forall|k: u64| #[trigger] send_scan(v, keys1, sequence1, available1, t1).unacked.contains_key(k)
            ==> send_scan(v, keys1, sequence1, available1, t1).unacked[k].wf(),
        available2 >= keys_cost(send_scan(v, keys1, sequence1, available1, t1).unacked, keys2, 0),
        t1 <= t2,
        t2 - t1 >= v.resend_time,
    ensures
        ({
            let r1 = send_scan(v, keys1, sequence1, available1, t1);
            let v2 = SendChannelView { unacked: r1.unacked, ..v };
            let r2 = send_scan(v2, keys2, sequence2, available2, t2);
            &&& forall|i: int|
                0 <= i < small_ids(r1.packets).len() ==> small_ids(r2.packets).contains(
                    #[trigger] small_ids(r1.packets)[i],
                )
            &&& forall|i: int|
                0 <= i < r1.packets.len() && #[trigger] r1.packets[i] is ReliableSlice ==> has_slice(
                    r2.packets,
                    r1.packets[i]->message_id,
                    r1.packets[i]->slice_index,
                )
        }),
{
    let r1 = send_scan(v, keys1, sequence1, available1, t1);
    let v2 = SendChannelView { unacked: r1.unacked, ..v };
    lemma_send_pass_due(v, keys1, sequence1, available1, t1);
    lemma_send_pass_sends_due(v2, keys2, sequence2, available2, t2);
    let ids1 = small_ids(r1.packets);
    assert forall|i: int| 0 <= i < ids1.len() implies small_ids(
        send_scan(v2, keys2, sequence2, available2, t2).packets,
    ).contains(#[trigger] ids1[i]) by {
        assert(small_stamped(r1.unacked, t1, ids1[i]));
        assert(small_due(v2.unacked, t2, v.resend_time, ids1[i]));
    }
    let m0 = v.unacked;
    let st0 = SendScan { packets: seq![], small: seq![], small_bytes: 0, sequence: sequence1, available: available1, unacked: m0 };
    assert forall|i: int| 0 <= i < keys1.len() implies m0.contains_key(#[trigger] keys1[i]) by {
        assert(keys1.to_set().contains(keys1[i]));
    }
    assert forall|k: u64| #[trigger] m0.contains_key(k) && m0[k] is Sliced implies m0[k]->num_slices >= 1 by {
        assert(m0[k].wf());
    }
    lemma_keys_right(v.channel_id, v.resend_time, t1, keys1, 0, st0, m0);
    lemma_send_pass_slices(v, keys1, sequence1, available1, t1);
    assert forall|i: int| 0 <= i < r1.packets.len() && #[trigger] r1.packets[i] is ReliableSlice implies has_slice(
        send_scan(v2, keys2, sequence2, available2, t2).packets,
        r1.packets[i]->message_id,
        r1.packets[i]->slice_index,
    ) by {
        let k = r1.packets[i]->message_id;
        let x = r1.packets[i]->slice_index;
        assert(slice_stamped(r1.unacked, t1, k, x));
        assert(r1.unacked.contains_key(k));
        assert(slice_owed(v2.unacked, t2, v.resend_time, k, x));
    }
}

/// Some packet of `ps` carries slice `idx` of message `k`.
pub open spec fn has_slice(ps: Seq<PacketView>, k: u64, idx: nat) -> bool {
    exists|i: int|
        0 <= i < ps.len() && #[trigger] ps[i] is ReliableSlice && ps[i]->message_id == k && ps[i]->slice_index == idx
}

/// Slice `idx` of message `k` is queued in `m0`, not acknowledged, and due.
pub open spec fn slice_owed(m0: Map<u64, UnackedView>, now: u128, resend: u128, k: u64, idx: nat) -> bool {
    &&& slice_due(m0, now, resend, k, idx)
    &&& idx < m0[k]->num_slices
    &&& !m0[k]->acked[idx as int]
}

proof fn lemma_has_slice_push(ps: Seq<PacketView>, p: PacketView, k: u64, idx: nat)
    requires
        has_slice(ps, k, idx),
    ensures
        has_slice(ps.push(p), k, idx),
{
    let i = choose|i: int|
        0 <= i < ps.len() && #[trigger] ps[i] is ReliableSlice && ps[i]->message_id == k && ps[i]->slice_index == idx;
    assert(ps.push(p)[i] == ps[i]);
}

proof fn lemma_slice_position(start: nat, n: nat, idx: nat) -> (i: int)
    requires
        idx < n,
    ensures
        0 <= i < n,
        (start + i) % (n as int) == idx,
{
    vstd::arithmetic::div_mod::lemma_fundamental_div_mod(start as int, n as int);
    let q = start as int / n as int;
    let s = start as int % n as int;
    if idx >= s {
        let i = idx - s;
        assert(start + i == q * n + idx) by (nonlinear_arith)
            requires
                start == n * q + s,
                i == idx - s,
        ;
        vstd::arithmetic::div_mod::lemma_fundamental_div_mod_converse(start + i, n as int, q, idx as int);
        i
    } else {
        let i = idx + n - s;
        assert(start + i == (q + 1) * n + idx) by (nonlinear_arith)
            requires
                start == n * q + s,
                i == idx + n - s,
        ;
        vstd::arithmetic::div_mod::lemma_fundamental_div_mod_converse(start + i, n as int, q + 1, idx as int);
        i
    }
}

proof fn lemma_slices_complete(
    channel_id: u8,
    resend: u128,
    now: u128,
    id: u64,
    message: Seq<u8>,
    n: nat,
    acked: Seq<bool>,
    start: nat,
    i: int,
    ss: SliceScan,
    orig: Seq<Option<u128>>,
    rest: nat,
)
    requires
        0 <= i <= n,
        SLICE_SIZE < message.len(),
        n == num_slices_for(message.len()),
        orig.len() == n,
        ss.last_sent.len() == n,
        ss.st.available >= SLICE_SIZE * (n - i) + rest,
        forall|x: int| 0 <= x < n ==> #[trigger] ss.last_sent[x] == orig[x] || has_slice(ss.st.packets, id, x as nat),
        forall|j: int|
            0 <= j < i && !acked[#[trigger] ((start + j) % (n as int))] && !sent_recently(
                now,
                orig[(start + j) % (n as int)],
                resend,
            ) ==> has_slice(ss.st.packets, id, ((start + j) % (n as int)) as nat),
    ensures
        ({
            let r = scan_slices(channel_id, resend, now, id, message, n, acked, start, i, ss);
            &&& forall|j: int|
                0 <= j < n && !acked[#[trigger] ((start + j) % (n as int))] && !sent_recently(
                    now,
                    orig[(start + j) % (n as int)],
                    resend,
                ) ==> has_slice(r.st.packets, id, ((start + j) % (n as int)) as nat)
            &&& forall|k: u64, x: nat| #[trigger] has_slice(ss.st.packets, k, x) ==> has_slice(r.st.packets, k, x)
        }),
    decreases n - i,
{
    if i >= n {
    } else {
        assert(ss.st.available >= SLICE_SIZE);
        let idx = ((start + i) % (n as int)) as nat;
        if acked[idx as int] || sent_recently(now, ss.last_sent[idx as int], resend) {
            assert forall|j: int|
                0 <= j < i + 1 && !acked[#[trigger] ((start + j) % (n as int))] && !sent_recently(
                    now,
                    orig[(start + j) % (n as int)],
                    resend,
                ) implies has_slice(ss.st.packets, id, ((start + j) % (n as int)) as nat) by {
                if j == i {
                    assert(ss.last_sent[idx as int] == orig[idx as int] || has_slice(ss.st.packets, id, idx));
                }
            }
            lemma_slices_complete(channel_id, resend, now, id, message, n, acked, start, i + 1, ss, orig, rest);
        } else {
            let payload = slice_payload(message, n, idx);
            lemma_payload_len(message, n, idx);
            let p = PacketView::ReliableSlice {
                sequence: ss.st.sequence,
                channel_id,
                message_id: id,
                slice_index: idx,
                num_slices: n,
                payload,
            };
            let st = SendScan {
                packets: ss.st.packets.push(p),
                sequence: ss.st.sequence + 1,
                available: (ss.st.available - payload.len()) as nat,
                ..ss.st
            };
            let last = ss.last_sent.update(idx as int, Some(now));
            let ss1 = SliceScan { st, last_sent: last, next: (idx + 1nat % n) as nat };
            assert(st.packets[ss.st.packets.len() as int] == p);
            assert(has_slice(st.packets, id, idx));
            assert forall|k: u64, x: nat| #[trigger] has_slice(ss.st.packets, k, x) implies has_slice(st.packets, k, x) by {
                lemma_has_slice_push(ss.st.packets, p, k, x);
            }
            assert forall|x: int| 0 <= x < n implies #[trigger] last[x] == orig[x] || has_slice(st.packets, id, x as nat) by {
                if x != idx {
                    assert(last[x] == ss.last_sent[x]);
                    if has_slice(ss.st.packets, id, x as nat) {
                        lemma_has_slice_push(ss.st.packets, p, id, x as nat);
                    }
                }
            }
            assert forall|j: int|
                0 <= j < i + 1 && !acked[#[trigger] ((start + j) % (n as int))] && !sent_recently(
                    now,
                    orig[(start + j) % (n as int)],
                    resend,
                ) implies has_slice(st.packets, id, ((start + j) % (n as int)) as nat) by {
                if j < i {
                    lemma_has_slice_push(ss.st.packets, p, id, ((start + j) % (n as int)) as nat);
                }
            }
            lemma_slices_complete(channel_id, resend, now, id, message, n, acked, start, i + 1, ss1, orig, rest);
        }
    }
}

/// No two slice packets of `ps` carry the same slice of the same message.
pub open spec fn slices_once(ps: Seq<PacketView>) -> bool {
    forall|i: int, j: int|
        0 <= i < j < ps.len() && #[trigger] ps[i] is ReliableSlice && #[trigger] ps[j] is ReliableSlice
            ==> ps[i]->message_id != ps[j]->message_id || ps[i]->slice_index != ps[j]->slice_index
}

proof fn lemma_mod_distinct(start: nat, n: nat, a: int, b: int)
    requires
        0 <= a < b < n,
    ensures
        (start + a) % (n as int) != (start + b) % (n as int),
{
    let x = start + a;
    let y = start + b;
    vstd::arithmetic::div_mod::lemma_fundamental_div_mod(x, n as int);
    vstd::arithmetic::div_mod::lemma_fundamental_div_mod(y, n as int);
    if x % (n as int) == y % (n as int) {
        let qx = x / (n as int);
        let qy = y / (n as int);
        assert(b - a == n * (qy - qx)) by (nonlinear_arith)
            requires
                x == n * qx + x % (n as int),
                y == n * qy + y % (n as int),
                x % (n as int) == y % (n as int),
                b - a == y - x,
        ;
        assert(false) by (nonlinear_arith)
            requires
                b - a == n * (qy - qx),
                0 < b - a < n,
        ;
    }
}

spec fn wrap_index(start: nat, n: nat, a: int) -> int {
    (start + a) % (n as int)
}

spec fn slices_once_below(ps: Seq<PacketView>, b: int) -> bool {
    &&& slices_once(ps)
    &&& forall|i: int| 0 <= i < ps.len() && #[trigger] ps[i] is ReliableSlice ==> ps[i]->message_id < b
}

proof fn lemma_slices_once(
    channel_id: u8,
    resend: u128,
    now: u128,
    id: u64,
    message: Seq<u8>,
    n: nat,
    acked: Seq<bool>,
    start: nat,
    i: int,
    ss: SliceScan,
)
    requires
        0 <= i <= n,
        slices_once(ss.st.packets),
        forall|k: int|
            0 <= k < ss.st.packets.len() && #[trigger] ss.st.packets[k] is ReliableSlice ==> ss.st.packets[k]->message_id
                <= id,
        forall|k: int|
            0 <= k < ss.st.packets.len() && #[trigger] ss.st.packets[k] is ReliableSlice && ss.st.packets[k]->message_id
                == id ==> exists|a: int| 0 <= a < i && ss.st.packets[k]->slice_index == #[trigger] wrap_index(start, n, a),
    ensures
        slices_once(scan_slices(channel_id, resend, now, id, message, n, acked, start, i, ss).st.packets),
        forall|k: int|
            0 <= k < scan_slices(channel_id, resend, now, id, message, n, acked, start, i, ss).st.packets.len()
                && #[trigger] scan_slices(channel_id, resend, now, id, message, n, acked, start, i, ss).st.packets[k] is ReliableSlice
                ==> scan_slices(channel_id, resend, now, id, message, n, acked, start, i, ss).st.packets[k]->message_id
                <= id,
    decreases n - i,
{
    if i >= n || ss.st.available < SLICE_SIZE {
    } else {
        let idx = ((start + i) % (n as int)) as nat;
        if acked[idx as int] || sent_recently(now, ss.last_sent[idx as int], resend) {
            lemma_slices_once(channel_id, resend, now, id, message, n, acked, start, i + 1, ss);
        } else {
            let payload = slice_payload(message, n, idx);
            let p = PacketView::ReliableSlice {
                sequence: ss.st.sequence,
                channel_id,
                message_id: id,
                slice_index: idx,
                num_slices: n,
                payload,
            };
            let st = SendScan {
                packets: ss.st.packets.push(p),
                sequence: ss.st.sequence + 1,
                available: (ss.st.available - payload.len()) as nat,
                ..ss.st
            };
            let ps = st.packets;
            let old_len = ss.st.packets.len() as int;
            assert forall|a: int, c: int|
                0 <= a < c < ps.len() && #[trigger] ps[a] is ReliableSlice && #[trigger] ps[c] is ReliableSlice implies ps[a]->message_id
                != ps[c]->message_id || ps[a]->slice_index != ps[c]->slice_index by {
                assert(ps[a] == ss.st.packets[a]);
                if c < old_len {
                    assert(ps[c] == ss.st.packets[c]);
                } else if ps[a]->message_id == id {
                    let w = choose|w: int| 0 <= w < i && ss.st.packets[a]->slice_index == wrap_index(start, n, w);
                    lemma_mod_distinct(start, n, w, i);
                }
            }
            assert forall|k: int| 0 <= k < ps.len() && #[trigger] ps[k] is ReliableSlice implies ps[k]->message_id <= id by {
                if k < old_len {
                    assert(ps[k] == ss.st.packets[k]);
                }
            }
            assert forall|k: int| 0 <= k < ps.len() && #[trigger] ps[k] is ReliableSlice && ps[k]->message_id == id implies exists|
                a: int,
            | 0 <= a < i + 1 && ps[k]->slice_index == #[trigger] wrap_index(start, n, a) by {
                if k < old_len {
                    assert(ps[k] == ss.st.packets[k]);
                    let w = choose|w: int| 0 <= w < i && ss.st.packets[k]->slice_index == wrap_index(start, n, w);
                    assert(0 <= w < i + 1 && ps[k]->slice_index == wrap_index(start, n, w));
                } else {
                    assert(ps[k]->slice_index == wrap_index(start, n, i));
                }
            }
            lemma_slices_once(
                channel_id,
                resend,
                now,
                id,
                message,
                n,
                acked,
                start,
                i + 1,
                SliceScan { st, last_sent: ss.last_sent.update(idx as int, Some(now)), next: (idx + 1nat % n) as nat },
            );
        }
    }
}

proof fn lemma_one_once(channel_id: u8, resend: u128, now: u128, id: u64, st: SendScan)
    requires
        slices_once_below(st.packets, id as int),
    ensures
        slices_once_below(scan_one(channel_id, resend, now, id, st).packets, id + 1),
{
    let r = scan_one(channel_id, resend, now, id, st);
    match st.unacked[id] {
        UnackedView::Small { message, last_sent } => {
            assert forall|a: int, c: int|
                0 <= a < c < r.packets.len() && #[trigger] r.packets[a] is ReliableSlice && #[trigger] r.packets[c] is ReliableSlice implies r.packets[a]->message_id
                != r.packets[c]->message_id || r.packets[a]->slice_index != r.packets[c]->slice_index by {
                assert(c < st.packets.len());
                assert(r.packets[a] == st.packets[a]);
                assert(r.packets[c] == st.packets[c]);
            }
            assert forall|k: int| 0 <= k < r.packets.len() && #[trigger] r.packets[k] is ReliableSlice implies r.packets[k]->message_id < id + 1 by {
                assert(k < st.packets.len());
                assert(r.packets[k] == st.packets[k]);
            }
        },
        UnackedView::Sliced { message, num_slices, next_slice_to_send, acked, last_sent, .. } => {
            lemma_slices_once(
                channel_id,
                resend,
                now,
                id,
                message,
                num_slices,
                acked,
                next_slice_to_send,
                0,
                SliceScan { st, last_sent, next: next_slice_to_send },
            );
        },
    }
}

proof fn lemma_keys_once(channel_id: u8, resend: u128, now: u128, keys: Seq<u64>, j: int, st: SendScan, b: int)
    requires
        0 <= j <= keys.len(),
        forall|a: int, c: int| 0 <= a < c < keys.len() ==> keys[a] < keys[c],
        slices_once_below(st.packets, b),
        forall|i: int| j <= i < keys.len() ==> b <= #[trigger] keys[i],
    ensures
        slices_once(scan_keys(channel_id, resend, now, keys, j, st).packets),
    decreases keys.len() - j,
{
    if j < keys.len() {
        let id = keys[j];
        lemma_one_once(channel_id, resend, now, id, st);
        assert forall|i: int| j + 1 <= i < keys.len() implies id + 1 <= #[trigger] keys[i] by {
            assert(keys[j] < keys[i]);
        }
        lemma_keys_once(channel_id, resend, now, keys, j + 1, scan_one(channel_id, resend, now, id, st), id + 1);
    }
}

/// A send pass sends each slice of each message at most once.
pub proof fn lemma_send_pass_slices_once(v: SendChannelView, keys: Seq<u64>, sequence: nat, available: nat, now: u128)
    requires
        increasing_keys(keys, v.unacked.dom()),
    ensures
        slices_once(send_scan(v, keys, sequence, available, now).packets),
{
    let st0 = SendScan { packets: seq![], small: seq![], small_bytes: 0, sequence, available, unacked: v.unacked };
    lemma_keys_once(v.channel_id, v.resend_time, now, keys, 0, st0, 0);
    let st = scan_keys(v.channel_id, v.resend_time, now, keys, 0, st0);
    let r = scan_finish(v.channel_id, st);
    assert forall|a: int, c: int|
        0 <= a < c < r.packets.len() && #[trigger] r.packets[a] is ReliableSlice && #[trigger] r.packets[c] is ReliableSlice implies r.packets[a]->message_id
        != r.packets[c]->message_id || r.packets[a]->slice_index != r.packets[c]->slice_index by {
        assert(c < st.packets.len());
        assert(r.packets[a] == st.packets[a]);
        assert(r.packets[c] == st.packets[c]);
    }
}

/// What happens to a receiving channel: a message arrives under an id, or
/// the next message is asked for.
pub ghost enum ReceiveOp {
    Arrive(u64, Seq<u8>),
    Receive,
}

/// The channel after the first `n` of `ops`, from `v`, and the messages
/// handed out on the way, in order.
pub open spec fn run_receiver(v: ReceiveChannelView, ops: Seq<ReceiveOp>, n: int) -> (ReceiveChannelView, Seq<Seq<u8>>)
    decreases n,
{
    if n <= 0 {
        (v, Seq::empty())
    } else {
        let (w, out) = run_receiver(v, ops, n - 1);
        match ops[n - 1] {
            ReceiveOp::Arrive(id, message) => (process_message_spec(w, message, id).1, out),
            ReceiveOp::Receive => {
                let (m, w2) = receive_message_spec(w);
                match m {
                    Some(b) => (w2, out.push(b)),
                    None => (w2, out),
                }
            },
        }
    }
}

/// The bytes of the first arrival of id `k` among the first `n` of `ops`.
pub open spec fn first_arrival(ops: Seq<ReceiveOp>, n: int, k: u64) -> Option<Seq<u8>>
    decreases n,
{
    if n <= 0 {
        None
    } else {
        let f = first_arrival(ops, n - 1, k);
        if f is Some {
            f
        } else {
            match ops[n - 1] {
                ReceiveOp::Arrive(id, message) => if id == k { Some(message) } else { None },
                ReceiveOp::Receive => None,
            }
        }
    }
}

/// The bytes of all arrivals among the first `n` of `ops`.
pub open spec fn arrived_bytes(ops: Seq<ReceiveOp>, n: int) -> nat
    decreases n,
{
    if n <= 0 {
        0
    } else {
        arrived_bytes(ops, n - 1) + match ops[n - 1] {
            ReceiveOp::Arrive(_, message) => message.len(),
            ReceiveOp::Receive => 0,
        }
    }
}

spec fn receiver_inv(v: ReceiveChannelView, ops: Seq<ReceiveOp>, n: int) -> bool {
    let (w, out) = run_receiver(v, ops, n);
    &&& w.ordered
    &&& w.oldest_pending_message_id == out.len()
    &&& w.max_memory_usage_bytes == v.max_memory_usage_bytes
    &&& w.memory_usage_bytes <= v.memory_usage_bytes + arrived_bytes(ops, n)
    &&& w.memory_usage_bytes >= message_bytes(w.messages)
    &&& forall|i: int| 0 <= i < out.len() ==> first_arrival(ops, n, i as u64) == Some(#[trigger] out[i])
    &&& forall|k: u64|
        #[trigger] w.messages.contains_key(k) <==> (k >= out.len() && first_arrival(ops, n, k) is Some)
    &&& forall|k: u64| #[trigger] w.messages.contains_key(k) ==> first_arrival(ops, n, k) == Some(w.messages[k])
}

proof fn lemma_receiver_inv(v: ReceiveChannelView, ops: Seq<ReceiveOp>, n: int)
    requires
        v.ordered,
        v.oldest_pending_message_id == 0,
        v.messages == Map::<u64, Seq<u8>>::empty(),
        0 <= n <= ops.len(),
        ops.len() < u64::MAX,
        v.memory_usage_bytes + arrived_bytes(ops, ops.len() as int) <= v.max_memory_usage_bytes,
    ensures
        receiver_inv(v, ops, n),
    decreases n,
{
    if n == 0 {
        lemma_map_sum_empty(|b: Seq<u8>| b.len(), key_space());
    } else {
        lemma_receiver_inv(v, ops, n - 1);
        lemma_arrived_mono(ops, n, ops.len() as int);
        let (w, out) = run_receiver(v, ops, n - 1);
        assert(out.len() <= n - 1) by {
            lemma_out_len(v, ops, n - 1);
        }
        match ops[n - 1] {
            ReceiveOp::Arrive(id, message) => {
                let w1 = process_message_spec(w, message, id).1;
                if !(id < w.oldest_pending_message_id) && !w.messages.contains_key(id) {
                    lemma_map_sum_insert(w.messages, |b: Seq<u8>| b.len(), id, message);
                }
                assert forall|k: u64| #[trigger] w1.messages.contains_key(k) <==> (k >= out.len() && first_arrival(
                    ops,
                    n,
                    k,
                ) is Some) by {
                    if k == id && !(id < w.oldest_pending_message_id) {
                        assert(w1.messages.contains_key(k));
                    }
                }
                assert forall|i: int| 0 <= i < out.len() implies first_arrival(ops, n, i as u64) == Some(
                    #[trigger] out[i],
                ) by {
                    assert(first_arrival(ops, n - 1, i as u64) == Some(out[i]));
                }
            },
            ReceiveOp::Receive => {
                let (m, w2) = receive_message_spec(w);
                let id = w.oldest_pending_message_id;
                if w.messages.contains_key(id) {
                    lemma_map_sum_remove(w.messages, |b: Seq<u8>| b.len(), id, key_space());
                    let out2 = out.push(w.messages[id]);
                    assert forall|i: int| 0 <= i < out2.len() implies first_arrival(ops, n, i as u64) == Some(
                        #[trigger] out2[i],
                    ) by {
                        if i < out.len() {
                            assert(first_arrival(ops, n - 1, i as u64) == Some(out[i]));
                        } else {
                            assert(i == id);
                        }
                    }
                    assert forall|k: u64| #[trigger] w2.messages.contains_key(k) <==> (k >= out2.len()
                        && first_arrival(ops, n, k) is Some) by {
                        if k == id {
                            assert(!w2.messages.contains_key(k));
                        }
                    }
                }
            },
        }
    }
}

proof fn lemma_out_len(v: ReceiveChannelView, ops: Seq<ReceiveOp>, n: int)
    requires
        0 <= n,
    ensures
        run_receiver(v, ops, n).1.len() <= n,
    decreases n,
{
    if n > 0 {
        lemma_out_len(v, ops, n - 1);
    }
}

proof fn lemma_arrived_mono(ops: Seq<ReceiveOp>, n: int, m: int)
    requires
        0 <= n <= m,
    ensures
        arrived_bytes(ops, n) <= arrived_bytes(ops, m),
    decreases m - n,
{
    if n < m {
        lemma_arrived_mono(ops, n, m - 1);
    }
}

/// On an ordered channel that starts empty and has the memory for every
/// message that arrives, whatever the order of arrivals, copies and
/// requests: the messages come out in id order, from id 0 on, each once,
/// each with the bytes of the first copy that arrived; and at any point
/// the channel waits, in its message store, exactly for the ids not yet
/// handed out of which a copy has arrived.
pub proof fn lemma_ordered_channel_run(v: ReceiveChannelView, ops: Seq<ReceiveOp>)
    requires
        v.ordered,
        v.oldest_pending_message_id == 0,
        v.messages == Map::<u64, Seq<u8>>::empty(),
        ops.len() < u64::MAX,
        v.memory_usage_bytes + arrived_bytes(ops, ops.len() as int) <= v.max_memory_usage_bytes,
    ensures
        ({
            let (w, out) = run_receiver(v, ops, ops.len() as int);
            &&& forall|i: int| 0 <= i < out.len() ==> first_arrival(ops, ops.len() as int, i as u64) == Some(
                #[trigger] out[i],
            )
            &&& forall|k: u64|
                #[trigger] w.messages.contains_key(k) <==> (k >= out.len() && first_arrival(ops, ops.len() as int, k) is Some)
        }),
{
    lemma_receiver_inv(v, ops, ops.len() as int);
}

} // verus!
