//! A large message sent in slices is rebuilt whole by the receiver,
//! whatever the order in which its slices arrive and however often each
//! arrives.

use vstd::prelude::*;
use crate::packet::SLICE_SIZE;
use crate::reliable::{fresh_constructor, num_slices_for, slice_payload};
use crate::slice_constructor::{
    count_true, data_after, lemma_count_true_bound, lemma_count_true_update, process_slice_spec, valid_slice_len,
    write_at, resized, SliceConstructorView, lemma_count_true_all,
};

verus! {

/// What a constructor hands out when the slices of `message` with the
/// indexes of `order` arrive one after the other: the first message it
/// completes, if any.
pub open spec fn feed_slices(c: SliceConstructorView, message: Seq<u8>, order: Seq<nat>) -> Option<Seq<u8>>
    decreases order.len(),
{
    if order.len() == 0 {
        None
    } else {
        let i = order[0];
        let (r, c2) = process_slice_spec(c, i, slice_payload(message, c.num_slices, i));
        match r {
            Ok(Some(m)) => Some(m),
            _ => feed_slices(c2, message, order.drop_first()),
        }
    }
}

/// The slice that byte `j` of a message travels in.
spec fn slot(j: int) -> int {
    j / (SLICE_SIZE as int)
}

proof fn lemma_slot(j: int, i: int)
    requires
        0 <= j,
        0 <= i,
    ensures
        (slot(j) == i) == (i * 1200 <= j < i * 1200 + 1200),
        0 <= slot(j),
{
    assert((j / 1200 == i) == (i * 1200 <= j < i * 1200 + 1200) && 0 <= j / 1200) by (nonlinear_arith)
        requires
            0 <= j,
            0 <= i,
    ;
}

proof fn lemma_slot_below(j: int, n: int)
    requires
        0 <= j < n * 1200,
        1 <= n,
    ensures
        slot(j) < n,
{
    assert(j / 1200 < n) by (nonlinear_arith)
        requires
            0 <= j < n * 1200,
    ;
}

proof fn lemma_message_slices(len: int, n: int)
    requires
        SLICE_SIZE < len,
        n == num_slices_for(len as nat),
    ensures
        2 <= n,
        (n - 1) * 1200 < len <= n * 1200,
{
    assert(2 <= n && (n - 1) * 1200 < len <= n * 1200) by (nonlinear_arith)
        requires
            1200 < len,
            n == (len + 1199) / 1200,
    ;
}

proof fn lemma_count_true_full(s: Seq<bool>)
    requires
        count_true(s) == s.len(),
    ensures
        forall|i: int| 0 <= i < s.len() ==> s[i],
{
    lemma_count_true_bound(s);
}

/// The state of a constructor part way through `message`: its slices that
/// have arrived hold the message's bytes, and its buffer has the length of
/// the message once the last slice has arrived, of `n` full slices before.
spec fn partial(c: SliceConstructorView, message: Seq<u8>, n: nat) -> bool {
    &&& SLICE_SIZE < message.len()
    &&& n == num_slices_for(message.len())
    &&& c.num_slices == n
    &&& c.received.len() == n
    &&& c.num_received_slices == count_true(c.received)
    &&& c.num_received_slices < n
    &&& c.sliced_data.len() == if c.received[n - 1] { message.len() as int } else { n * SLICE_SIZE }
    &&& forall|j: int|
        0 <= j < message.len() && #[trigger] c.received[slot(j)] ==> j < c.sliced_data.len()
            && c.sliced_data[j] == message[j]
}

proof fn lemma_first_arrival(c: SliceConstructorView, message: Seq<u8>, n: nat, i: nat)
    requires
        partial(c, message, n),
        i < n,
        !c.received[i as int],
    ensures
        ({
            let b = slice_payload(message, n, i);
            let d = data_after(c, i, b);
            let received = c.received.update(i as int, true);
            &&& valid_slice_len(c, i, b.len())
            &&& d.len() == if received[n - 1] { message.len() as int } else { n * SLICE_SIZE }
            &&& forall|j: int|
                0 <= j < message.len() && #[trigger] received[slot(j)] ==> j < d.len() && d[j] == message[j]
        }),
{
    let len = message.len() as int;
    lemma_message_slices(len, n as int);
    let b = slice_payload(message, n, i);
    let st: int = (i * 1200) as int;
    assert(st < len && (i < n - 1 ==> st + 1200 <= (n - 1) * 1200)) by (nonlinear_arith)
        requires
            0 <= i < n,
            st == i * 1200,
            (n - 1) * 1200 < len,
    ;
    let data = c.sliced_data;
    let last = i == n - 1;
    let dd = if last { resized(data, len) } else { data };
    if last {
        assert(b.len() == len - st);
        assert(dd =~= data.subrange(0, len));
    } else {
        assert(b.len() == 1200);
    }
    assert(st + b.len() <= dd.len());
    let d = data_after(c, i, b);
    assert(d == write_at(dd, st, b));
    assert(d.len() == dd.len());
    let received = c.received.update(i as int, true);
    assert forall|j: int| 0 <= j < len && #[trigger] received[slot(j)] implies j < d.len() && d[j] == message[j] by {
        lemma_slot(j, i as int);
        if slot(j) == i {
            assert(st <= j < st + b.len());
            assert(d[j] == b[j - st]);
        } else {
            assert(c.received[slot(j)]);
            assert(j < st || st + b.len() <= j);
            assert(d[j] == dd[j]);
        }
    }
}

proof fn lemma_feed(c: SliceConstructorView, message: Seq<u8>, n: nat, order: Seq<nat>)
    requires
        partial(c, message, n),
        forall|k: int| 0 <= k < order.len() ==> order[k] < n,
        forall|i: int| 0 <= i < n && !c.received[i] ==> order.contains(i as nat),
    ensures
        feed_slices(c, message, order) == Some(message),
    decreases order.len(),
{
    let len = message.len() as int;
    lemma_message_slices(len, n as int);
    if order.len() == 0 {
        if forall|i: int| 0 <= i < n ==> c.received[i] {
            lemma_count_true_all(c.received);
        }
        let i = choose|i: int| 0 <= i < n && !c.received[i];
        assert(order.contains(i as nat));
    } else {
        let i = order[0];
        let b = slice_payload(message, n, i);
        let rest = order.drop_first();
        if c.received[i as int] {
            let received = c.received.update(i as int, true);
            assert(received =~= c.received);
            assert(data_after(c, i, b) == c.sliced_data);
            lemma_slot(0, 0);
            if i == n - 1 {
                assert(b.len() == len - i * 1200);
                assert(b.len() <= SLICE_SIZE) by (nonlinear_arith)
                    requires
                        b.len() == len - i * 1200,
                        len <= n * 1200,
                        i == n - 1,
                ;
            } else {
                assert(b.len() == SLICE_SIZE) by (nonlinear_arith)
                    requires
                        b.len() == (i + 1) * 1200 - i * 1200,
                ;
            }
            let c2 = process_slice_spec(c, i, b).1;
            assert(c2 == c);
            assert forall|j: int| 0 <= j < n && !c2.received[j] implies rest.contains(j as nat) by {
                let k = choose|k: int| 0 <= k < order.len() && order[k] == j as nat;
                assert(k != 0);
                assert(rest[k - 1] == j as nat);
            }
            lemma_feed(c2, message, n, rest);
        } else {
            lemma_first_arrival(c, message, n, i);
            lemma_count_true_update(c.received, i as int);
            let received = c.received.update(i as int, true);
            let d = data_after(c, i, b);
            let (r, c2) = process_slice_spec(c, i, b);
            if count_true(received) == n {
                lemma_count_true_full(received);
                assert(received[n - 1]);
                assert forall|j: int| 0 <= j < len implies d[j] == message[j] by {
                    lemma_slot(j, 0);
                    lemma_slot_below(j, n as int);
                    assert(received[slot(j)]);
                }
                assert(d =~= message);
            } else {
                assert(partial(c2, message, n));
                assert forall|j: int| 0 <= j < n && !c2.received[j] implies rest.contains(j as nat) by {
                    assert(!c.received[j]);
                    let k = choose|k: int| 0 <= k < order.len() && order[k] == j as nat;
                    assert(k != 0);
                    assert(rest[k - 1] == j as nat);
                }
                lemma_feed(c2, message, n, rest);
            }
        }
    }
}

/// A message longer than one slice, cut into slices as the sender cuts it,
/// is rebuilt whole by a new constructor once every slice has arrived at
/// least once, in any order: the constructor hands out exactly the message.
pub proof fn lemma_slices_reassemble(message: Seq<u8>, id: u64, order: Seq<nat>)
    requires
        SLICE_SIZE < message.len(),
        forall|k: int| 0 <= k < order.len() ==> order[k] < num_slices_for(message.len()),
        forall|i: nat| i < num_slices_for(message.len()) ==> order.contains(i),
    ensures
        feed_slices(fresh_constructor(id, num_slices_for(message.len())), message, order) == Some(message),
{
    let n = num_slices_for(message.len());
    let c = fresh_constructor(id, n);
    lemma_message_slices(message.len() as int, n as int);
    crate::slice_constructor::lemma_count_true_all_false(c.received);
    assert forall|j: int| 0 <= j < message.len() && #[trigger] c.received[slot(j)] implies j < c.sliced_data.len()
        && c.sliced_data[j] == message[j] by {
        lemma_slot(j, 0);
        lemma_slot_below(j, n as int);
    }
    assert(partial(c, message, n));
    assert forall|i: int| 0 <= i < n && !c.received[i] implies order.contains(i as nat) by {
        assert((i as nat) < n);
    }
    lemma_feed(c, message, n, order);
}

} // verus!
