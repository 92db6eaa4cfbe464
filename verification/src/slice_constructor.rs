//! Reassembly of a large message from its slices.

use vstd::prelude::*;
use bytes::Bytes;
use crate::packet::{ChannelError, SLICE_SIZE};
use crate::payload::{bytes_view, bytes_len, bytes_to_vec, bytes_from_vec};

verus! {

/// Slices received so far: `true` entries of `s`.
pub open spec fn count_true(s: Seq<bool>) -> nat
    decreases s.len(),
{
    if s.len() == 0 {
        0
    } else {
        count_true(s.drop_last()) + if s.last() { 1nat } else { 0nat }
    }
}

pub proof fn lemma_count_true_update(s: Seq<bool>, i: int)
    requires
        0 <= i < s.len(),
        !s[i],
    ensures
        count_true(s.update(i, true)) == count_true(s) + 1,
    decreases s.len(),
{
    let u = s.update(i, true);
    if i == s.len() - 1 {
        assert(u.drop_last() =~= s.drop_last());
    } else {
        assert(u.drop_last() =~= s.drop_last().update(i, true));
        lemma_count_true_update(s.drop_last(), i);
    }
}

pub proof fn lemma_count_true_bound(s: Seq<bool>)
    ensures
        count_true(s) <= s.len(),
        (exists|i: int| 0 <= i < s.len() && !s[i]) ==> count_true(s) < s.len(),
    decreases s.len(),
{
    if s.len() > 0 {
        lemma_count_true_bound(s.drop_last());
        if exists|i: int| 0 <= i < s.len() && !s[i] {
            let i = choose|i: int| 0 <= i < s.len() && !s[i];
            if i < s.len() - 1 {
                assert(!s.drop_last()[i]);
            }
        }
    }
}

pub proof fn lemma_count_true_all_false(s: Seq<bool>)
    requires
        forall|i: int| 0 <= i < s.len() ==> !s[i],
    ensures
        count_true(s) == 0,
    decreases s.len(),
{
    if s.len() > 0 {
        lemma_count_true_all_false(s.drop_last());
    }
}

pub proof fn lemma_count_true_all(s: Seq<bool>)
    requires
        forall|i: int| 0 <= i < s.len() ==> s[i],
    ensures
        count_true(s) == s.len(),
    decreases s.len(),
{
    if s.len() > 0 {
        lemma_count_true_all(s.drop_last());
    }
}

/// `d` with the bytes `b` written from position `start` on.
pub open spec fn write_at(d: Seq<u8>, start: int, b: Seq<u8>) -> Seq<u8> {
    d.subrange(0, start) + b + d.subrange(start + b.len(), d.len() as int)
}

/// `d` cut or zero-extended to length `len`.
pub open spec fn resized(d: Seq<u8>, len: int) -> Seq<u8> {
    if len <= d.len() {
        d.subrange(0, len)
    } else {
        d + Seq::new((len - d.len()) as nat, |i: int| 0u8)
    }
}

/// The state of a message being reassembled.
pub ghost struct SliceConstructorView {
    pub message_id: u64,
    pub num_slices: nat,
    pub num_received_slices: nat,
    pub received: Seq<bool>,
    pub sliced_data: Seq<u8>,
}

impl SliceConstructorView {
    /// The slice counts agree with the slices received, and the buffer has
    /// room for the slices still missing.
    pub open spec fn wf(self) -> bool {
        &&& self.num_slices >= 1
        &&& self.received.len() == self.num_slices
        &&& self.num_received_slices == count_true(self.received)
        &&& self.num_slices * SLICE_SIZE <= usize::MAX
        &&& self.num_received_slices < self.num_slices ==> {
            &&& (self.num_slices - 1) * SLICE_SIZE <= self.sliced_data.len() <= self.num_slices * SLICE_SIZE
            &&& !self.received[self.num_slices - 1] ==> self.sliced_data.len() == self.num_slices * SLICE_SIZE
        }
    }
}

/// Whether `len` bytes is a valid payload for slice `slice_index`: a full
/// slice, or at most a full slice for the last one.
pub open spec fn valid_slice_len(v: SliceConstructorView, slice_index: nat, len: nat) -> bool {
    if slice_index == v.num_slices - 1 {
        len <= SLICE_SIZE
    } else {
        len == SLICE_SIZE
    }
}

/// The buffer after slice `slice_index` with bytes `b` is written into it.
pub open spec fn data_after(v: SliceConstructorView, slice_index: nat, b: Seq<u8>) -> Seq<u8> {
    if v.received[slice_index as int] {
        v.sliced_data
    } else {
        let n = v.num_slices;
        let last = slice_index == n - 1;
        let d = if last {
            resized(v.sliced_data, (n - 1) * SLICE_SIZE + b.len())
        } else {
            v.sliced_data
        };
        write_at(d, slice_index * SLICE_SIZE, b)
    }
}

/// The result of taking in slice `slice_index` with bytes `b`, and the
/// constructor afterwards.
pub open spec fn process_slice_spec(v: SliceConstructorView, slice_index: nat, b: Seq<u8>) -> (
    Result<Option<Seq<u8>>, ChannelError>,
    SliceConstructorView,
) {
    if !valid_slice_len(v, slice_index, b.len()) {
        (Err(ChannelError::InvalidSliceMessage), v)
    } else {
        let data = data_after(v, slice_index, b);
        let received = v.received.update(slice_index as int, true);
        let count = count_true(received);
        if count == v.num_slices {
            (
                Ok(Some(data)),
                SliceConstructorView {
                    received,
                    num_received_slices: count,
                    sliced_data: Seq::empty(),
                    ..v
                },
            )
        } else {
            (
                Ok(None),
                SliceConstructorView {
                    received,
                    num_received_slices: count,
                    sliced_data: data,
                    ..v
                },
            )
        }
    }
}

/// A reassembled message is never longer than the buffer set aside for it.
pub proof fn lemma_data_after_len(v: SliceConstructorView, slice_index: nat, b: Seq<u8>)
    requires
        v.wf(),
        v.num_received_slices < v.num_slices,
        slice_index < v.num_slices,
        valid_slice_len(v, slice_index, b.len()),
    ensures
        data_after(v, slice_index, b).len() <= v.num_slices * SLICE_SIZE,
{
    let n = v.num_slices;
    let start = slice_index * SLICE_SIZE;
    if !v.received[slice_index as int] {
        if slice_index == n - 1 {
            assert(start == (n - 1) * SLICE_SIZE);
            assert((n - 1) * SLICE_SIZE + b.len() <= n * SLICE_SIZE) by (nonlinear_arith)
                requires b.len() <= SLICE_SIZE, n >= 1;
        } else {
            assert(start + SLICE_SIZE <= (n - 1) * SLICE_SIZE) by (nonlinear_arith)
                requires slice_index < n - 1, start == slice_index * SLICE_SIZE;
        }
    }
}

/// The bytes of a slice result.
pub open spec fn slice_result_view(r: Result<Option<Bytes>, ChannelError>) -> Result<
    Option<Seq<u8>>,
    ChannelError,
> {
    match r {
        Ok(Some(m)) => Ok(Some(bytes_view(m))),
        Ok(None) => Ok(None),
        Err(e) => Err(e),
    }
}

/// Collects the slices of one large message until all have arrived.
pub struct SliceConstructor {
    message_id: u64,
    num_slices: usize,
    num_received_slices: usize,
    received: Vec<bool>,
    sliced_data: Vec<u8>,
}

impl SliceConstructor {
    pub closed spec fn view(&self) -> SliceConstructorView {
        SliceConstructorView {
            message_id: self.message_id,
            num_slices: self.num_slices as nat,
            num_received_slices: self.num_received_slices as nat,
            received: self.received@,
            sliced_data: self.sliced_data@,
        }
    }

    /// The slice counts agree with the slices received, and the buffer has
    /// room for the slices still missing.
    pub open spec fn wf(&self) -> bool {
        self.view().wf()
    }

    /// The number of slices of the message.
    pub fn num_slices(&self) -> (n: usize)
        ensures
            n == self.view().num_slices,
    {
        self.num_slices
    }

    /// The number of slices received so far.
    pub fn num_received_slices(&self) -> (n: usize)
        ensures
            n == self.view().num_received_slices,
    {
        self.num_received_slices
    }

    /// A constructor for a message of `num_slices` slices, none received,
    /// with a zeroed buffer of `num_slices` full slices.
    pub fn new(message_id: u64, num_slices: usize) -> (sc: Self)
        requires
            num_slices >= 1,
            num_slices * SLICE_SIZE <= usize::MAX,
        ensures
            sc.wf(),
            sc.view().message_id == message_id,
            sc.view().num_slices == num_slices,
            sc.view().num_received_slices == 0,
            sc.view().received == Seq::new(num_slices as nat, |i: int| false),
            sc.view().sliced_data == Seq::new((num_slices * SLICE_SIZE) as nat, |i: int| 0u8),
    {
        let received = vec![false; num_slices];
        let sliced_data = vec![0u8; num_slices * SLICE_SIZE];
        let sc = SliceConstructor {
            message_id,
            num_slices,
            num_received_slices: 0,
            received,
            sliced_data,
        };
        proof {
            assert(sc.received@ =~= Seq::new(num_slices as nat, |i: int| false));
            assert(sc.sliced_data@ =~= Seq::new((num_slices * SLICE_SIZE) as nat, |i: int| 0u8));
            lemma_count_true_all_false(sc.received@);
        }
        sc
    }

    /// Takes in slice `slice_index`, as `process_slice_spec` describes: a
    /// payload of the wrong size is refused with `InvalidSliceMessage`; a
    /// slice not received before is copied to its place in the buffer (the
    /// last slice also sets the buffer's length); once every slice has
    /// arrived the buffer is handed out, and left empty.
    pub fn process_slice(&mut self, slice_index: usize, bytes: &Bytes) -> (r: Result<
        Option<Bytes>,
        ChannelError,
    >)
        requires
            old(self).wf(),
            slice_index < old(self).view().num_slices,
        ensures
            final(self).wf(),
            (slice_result_view(r), final(self).view()) == process_slice_spec(
                old(self).view(),
                slice_index as nat,
                bytes_view(*bytes),
            ),
    {
        let len = bytes_len(bytes);
        let is_last_slice = slice_index == self.num_slices - 1;
        if is_last_slice {
            if len > SLICE_SIZE {
                return Err(ChannelError::InvalidSliceMessage);
            }
        } else if len != SLICE_SIZE {
            return Err(ChannelError::InvalidSliceMessage);
        }
        let ghost old_view = self.view();
        let ghost b = bytes_view(*bytes);
        assert(valid_slice_len(old_view, slice_index as nat, b.len()));
        if !self.received[slice_index] {
            proof {
                lemma_count_true_bound(self.received@);
                lemma_count_true_update(self.received@, slice_index as int);
            }
            self.received.set(slice_index, true);
            self.num_received_slices += 1;
            if is_last_slice {
                let new_len = (self.num_slices - 1) * SLICE_SIZE + len;
                self.sliced_data.resize(new_len, 0);
                proof {
                    if new_len > old_view.sliced_data.len() {
                        assert forall|i: int| old_view.sliced_data.len() <= i < new_len implies self.sliced_data@[i] == 0u8 by {
                            assert(cloned::<u8>(0u8, self.sliced_data@[i]));
                        }
                        assert(self.sliced_data@ =~= resized(old_view.sliced_data, new_len as int));
                    }
                }
            }
            let start = slice_index * SLICE_SIZE;
            let src = bytes_to_vec(bytes);
            let ghost d0 = self.sliced_data@;
            assert(start + len <= d0.len()) by (nonlinear_arith)
                requires
                    start == slice_index * SLICE_SIZE,
                    slice_index < old_view.num_slices,
                    is_last_slice ==> d0.len() == (old_view.num_slices - 1) * SLICE_SIZE + len,
                    is_last_slice == (slice_index == old_view.num_slices - 1),
                    !is_last_slice ==> len == SLICE_SIZE,
                    !is_last_slice ==> (old_view.num_slices - 1) * SLICE_SIZE <= d0.len(),
            ;
            assert(d0.len() <= usize::MAX);
            let mut j: usize = 0;
            while j < len
                invariant
                    j <= len,
                    d0.len() <= usize::MAX,
                    self.received@ == old_view.received.update(slice_index as int, true),
                    self.num_received_slices == count_true(self.received@),
                    self.num_slices == old_view.num_slices,
                    self.message_id == old_view.message_id,
                    len == b.len(),
                    src@ == b,
                    start + len <= d0.len(),
                    self.sliced_data@.len() == d0.len(),
                    forall|i: int| 0 <= i < start ==> self.sliced_data@[i] == d0[i],
                    forall|i: int| start + len <= i < d0.len() ==> self.sliced_data@[i] == d0[i],
                    forall|i: int| start <= i < start + j ==> self.sliced_data@[i] == b[i - start],
                    forall|i: int| start + j <= i < start + len ==> self.sliced_data@[i] == d0[i],
                decreases len - j,
            {
                self.sliced_data.set(start + j, src[j]);
                j += 1;
            }
            proof {
                assert(self.sliced_data@ =~= write_at(d0, start as int, b));
            }
        } else {
            assert(old_view.received.update(slice_index as int, true) =~= old_view.received);
        }
        assert(self.sliced_data@ == data_after(old_view, slice_index as nat, b));
        if self.num_received_slices == self.num_slices {
            let mut payload: Vec<u8> = Vec::new();
            std::mem::swap(&mut payload, &mut self.sliced_data);
            let m = bytes_from_vec(payload);
            proof {
                assert(self.view() == process_slice_spec(old_view, slice_index as nat, b).1);
            }
            return Ok(Some(m));
        }
        proof {
            assert(self.view() == process_slice_spec(old_view, slice_index as nat, b).1);
        }
        Ok(None)
    }
}

} // verus!
