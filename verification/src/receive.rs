//! The receive pipeline.
//!
//! Every descriptor has a receive outstanding at all times but while its
//! completion waits to be looked at. A slot is `Armed` while its operation
//! is staged or in the kernel's hands, and `Completed` from the moment the
//! kernel's completion is taken in until the drain pass has looked at it
//! and staged the next receive. The engine blocks only when nothing is
//! visible; while completions are visible it drains.

use crate::address::{decode, parse, DecodeError, Endpoint};
use crate::descriptor::{Descriptor, DescriptorView, Pool};
use crate::ring::{
    after_wait, answer_view, batch, build_result, distinct_events, distinct_tags, has_event,
    has_tag, lemma_batch_tags, lemma_completions_match, retire, CompletionEvent, IoError, OpKind,
    Operation, Ring, RingConfig, RingInitError, RingView, Target,
};
use vstd::prelude::*;

verus! {

/// Where a slot stands in its cycle.
#[derive(Clone, Copy, Debug, PartialEq, Eq, Structural)]
pub enum SlotState {
    /// A receive for the slot is staged or in the kernel's hands.
    Armed,
    /// The slot's completion is visible and the next receive not yet staged.
    Completed,
}

/// What the engine does next.
#[derive(Clone, Copy, Debug, PartialEq, Eq, Structural)]
pub enum Step {
    /// Nothing is visible: flush, and block until one completion arrives.
    Wait,
    /// Completions are visible: look at them and re-arm their slots.
    Drain,
}

/// What one completed receive brought.
#[derive(Clone, Copy, Debug, PartialEq, Eq)]
pub enum Arrival {
    /// A datagram of `bytes` bytes, from `peer` where the address block
    /// names one.
    Datagram { tag: usize, bytes: usize, peer: Result<Endpoint, DecodeError> },
    /// The receive failed with this error code.
    Failed { tag: usize, code: u32 },
}

/// A receive pipeline as contracts see it.
#[verifier::ext_equal]
pub struct ReceiveView {
    /// The socket that every operation names.
    pub socket: Target,
    pub ring: RingView,
    /// The descriptors, by tag.
    pub slots: Seq<DescriptorView>,
    /// The state of each slot, by tag.
    pub states: Seq<SlotState>,
    /// Datagrams received so far; it stops at the largest `u64`.
    pub datagrams: u64,
    /// Payload bytes received so far; it stops at the largest `u64`.
    pub bytes: u64,
}

/// How many slots are armed.
pub open spec fn armed_count(states: Seq<SlotState>) -> nat
    decreases states.len(),
{
    if states.len() == 0 {
        0
    } else {
        armed_count(states.drop_last()) + if states.last() == SlotState::Armed {
            1nat
        } else {
            0nat
        }
    }
}

/// Every descriptor is valid and sits at its tag.
pub open spec fn in_place(slots: Seq<DescriptorView>) -> bool {
    forall|tag: int|
        0 <= tag < slots.len() ==> (#[trigger] slots[tag]).valid() && slots[tag].tag == tag
}

/// The ring and the slot states of a batch of `size` agree: each slot is
/// armed exactly while a receive on `socket` with its tag is outstanding,
/// and completed exactly while a completion with its tag is visible; no tag
/// occurs twice on the ring.
pub open spec fn in_rotation(
    socket: Target,
    ring: RingView,
    states: Seq<SlotState>,
    size: nat,
) -> bool {
    &&& ring.valid()
    &&& ring.depth() == size
    &&& states.len() == size
    &&& ring.outstanding().len() + ring.visible.len() == size
    &&& distinct_tags(ring.outstanding())
    &&& distinct_events(ring.visible)
    &&& forall|j: int|
        0 <= j < ring.outstanding().len() ==> (#[trigger] ring.outstanding()[j]) == (Operation {
            kind: OpKind::RecvMsg,
            target: socket,
            tag: ring.outstanding()[j].tag,
        })
    &&& forall|tag: usize|
        has_tag(ring.outstanding(), tag) || has_event(ring.visible, tag) ==> tag < size
    &&& forall|tag: int|
        0 <= tag < size ==> {
            &&& (#[trigger] states[tag]) == SlotState::Armed <==> has_tag(
                ring.outstanding(),
                tag as usize,
            )
            &&& states[tag] == SlotState::Completed <==> has_event(ring.visible, tag as usize)
        }
}

impl ReceiveView {
    /// How many receives the engine keeps outstanding.
    pub open spec fn batch_size(self) -> nat {
        self.slots.len()
    }

    /// The receive that arms slot `tag`.
    pub open spec fn rearm(self, tag: usize) -> Operation {
        Operation { kind: OpKind::RecvMsg, target: self.socket, tag }
    }

    /// Each slot is armed exactly while a receive with its tag is
    /// outstanding, and completed exactly while a completion with its tag is
    /// visible; no tag occurs twice on the ring; every descriptor sits at
    /// its tag.
    pub open spec fn valid(self) -> bool {
        &&& in_rotation(self.socket, self.ring, self.states, self.slots.len())
        &&& in_place(self.slots)
    }

    /// The same pipeline with `bytes` as the payload buffer of descriptor `tag`.
    pub open spec fn with_buffer(self, tag: int, bytes: Seq<u8>) -> ReceiveView {
        ReceiveView {
            slots: self.slots.update(tag, DescriptorView { buffer: bytes, ..self.slots[tag] }),
            ..self
        }
    }

    /// The same pipeline with `bytes` as the address block of descriptor `tag`.
    pub open spec fn with_storage(self, tag: int, bytes: Seq<u8>) -> ReceiveView {
        ReceiveView {
            slots: self.slots.update(tag, DescriptorView { storage: bytes, ..self.slots[tag] }),
            ..self
        }
    }

    /// What taking in the kernel's answer to a flush makes of the pipeline:
    /// the ring takes the completions in, and their slots are completed.
    pub open spec fn absorbed(
        self,
        min_complete: nat,
        events: Seq<CompletionEvent>,
    ) -> ReceiveView {
        ReceiveView {
            ring: after_wait(
                self.ring,
                min_complete,
                Ok::<Seq<CompletionEvent>, i32>(events),
            )->Ok_0,
            states: marked(self.states, events),
            ..self
        }
    }

    /// Whether `after` and `arrivals` are what a drain pass makes of this
    /// pipeline. Each visible completion, in order, gives one arrival, told
    /// from the descriptor as it was; its descriptor takes the datagram's
    /// length and peer; the next receive for its tag is staged. Descriptors
    /// that no completion names stay as they were. Afterwards nothing is
    /// visible and every slot is armed.
    pub open spec fn drained(self, after: ReceiveView, arrivals: Seq<Arrival>) -> bool {
        let events = self.ring.visible;
        &&& after.socket == self.socket
        &&& after.ring == (RingView {
            staged: self.ring.staged + events.map_values(
                |event: CompletionEvent| self.rearm(event.tag),
            ),
            visible: Seq::empty(),
            ..self.ring
        })
        &&& after.states == Seq::new(self.states.len(), |tag: int| SlotState::Armed)
        &&& after.datagrams == saturating(self.datagrams + datagram_count(events))
        &&& after.bytes == saturating(self.bytes + byte_count(events))
        &&& arrivals.len() == events.len()
        &&& forall|i: int|
            0 <= i < events.len() ==> #[trigger] arrivals[i] == arrival_of(
                events[i],
                self.slots[events[i].tag as int],
            )
        &&& after.slots.len() == self.slots.len()
        &&& forall|i: int|
            0 <= i < events.len() ==> after.slots[(#[trigger] events[i]).tag as int] == observed(
                self.slots[events[i].tag as int],
                events[i],
            )
        &&& forall|tag: int|
            0 <= tag < self.slots.len() && !has_event(events, tag as usize)
                ==> #[trigger] after.slots[tag] == self.slots[tag]
    }

    /// A pipeline that has received nothing: every slot blank and armed, its
    /// receive staged.
    pub open spec fn initial(
        config: RingConfig,
        buffer_capacity: usize,
        socket: Target,
    ) -> ReceiveView {
        ReceiveView {
            socket,
            ring: RingView {
                staged: batch(OpKind::RecvMsg, socket, config.queue_depth as nat),
                ..RingView::fresh(config)
            },
            slots: Seq::new(
                config.queue_depth as nat,
                |tag: int| DescriptorView::blank(tag as usize, buffer_capacity),
            ),
            states: Seq::new(config.queue_depth as nat, |tag: int| SlotState::Armed),
            datagrams: 0,
            bytes: 0,
        }
    }
}

/// What a completed receive says of the descriptor it filled: a failure, or
/// a datagram from the peer that the descriptor's address block names.
pub open spec fn arrival_of(event: CompletionEvent, slot: DescriptorView) -> Arrival {
    if event.result < 0 {
        Arrival::Failed { tag: event.tag, code: (-event.result) as u32 }
    } else {
        Arrival::Datagram {
            tag: event.tag,
            bytes: event.result as usize,
            peer: parse(slot.storage),
        }
    }
}

/// What a completed receive makes of the descriptor it filled. After a
/// failure the descriptor holds no datagram and no peer. After a success
/// the datagram is as long as the kernel said, or as the buffer is if that
/// is shorter, and the peer is the one the address block names, if any.
pub open spec fn observed(slot: DescriptorView, event: CompletionEvent) -> DescriptorView {
    if event.result < 0 {
        DescriptorView { valid_length: 0, endpoint: None, ..slot }
    } else {
        DescriptorView {
            valid_length: if event.result <= slot.buffer.len() {
                event.result as usize
            } else {
                slot.buffer.len() as usize
            },
            endpoint: match parse(slot.storage) {
                Ok(peer) => Some(peer),
                Err(_) => None,
            },
            ..slot
        }
    }
}

/// How many of the events are datagrams.
pub open spec fn datagram_count(events: Seq<CompletionEvent>) -> nat
    decreases events.len(),
{
    if events.len() == 0 {
        0
    } else {
        datagram_count(events.drop_last()) + if events.last().result >= 0 {
            1nat
        } else {
            0nat
        }
    }
}

/// How many payload bytes the events brought.
pub open spec fn byte_count(events: Seq<CompletionEvent>) -> nat
    decreases events.len(),
{
    if events.len() == 0 {
        0
    } else {
        byte_count(events.drop_last()) + if events.last().result >= 0 {
            events.last().result as nat
        } else {
            0nat
        }
    }
}

/// A running total that stops at the largest `u64`.
pub open spec fn saturating(total: int) -> u64 {
    if total > u64::MAX {
        u64::MAX
    } else {
        total as u64
    }
}

/// The states after the slots that `events` name have completed.
pub open spec fn marked(states: Seq<SlotState>, events: Seq<CompletionEvent>) -> Seq<SlotState> {
    Seq::new(
        states.len(),
        |tag: int|
            if has_event(events, tag as usize) {
                SlotState::Completed
            } else {
                states[tag]
            },
    )
}

/// Where every slot is armed, as many are armed as there are slots.
proof fn lemma_armed_all(states: Seq<SlotState>)
    requires
        forall|tag: int| 0 <= tag < states.len() ==> states[tag] == SlotState::Armed,
    ensures
        armed_count(states) == states.len(),
    decreases states.len(),
{
    if states.len() > 0 {
        lemma_armed_all(states.drop_last());
    }
}

/// Every slot is armed whenever the engine may block. In a valid pipeline
/// with nothing visible, the number of armed slots is the batch size.
pub proof fn lemma_armed_before_wait(view: ReceiveView)
    requires
        view.valid(),
        view.ring.visible.len() == 0,
    ensures
        armed_count(view.states) == view.batch_size(),
{
    assert forall|tag: int| 0 <= tag < view.states.len() implies view.states[tag]
        == SlotState::Armed by {
        if view.states[tag] == SlotState::Completed {
            assert(has_event(view.ring.visible, tag as usize));
        }
    }
    lemma_armed_all(view.states);
}

/// An event among the first `i + 1` is among the first `i` or is the one
/// at `i`.
proof fn lemma_has_event_next(events: Seq<CompletionEvent>, i: int, tag: usize)
    requires
        0 <= i < events.len(),
    ensures
        has_event(events.take(i + 1), tag) <==> has_event(events.take(i), tag) || events[i].tag
            == tag,
{
    let shorter = events.take(i);
    let longer = events.take(i + 1);
    if has_event(shorter, tag) {
        let k = choose|k: int| 0 <= k < shorter.len() && (#[trigger] shorter[k]).tag == tag;
        assert(longer[k].tag == tag);
    }
    if events[i].tag == tag {
        assert(longer[i].tag == tag);
    }
    if has_event(longer, tag) {
        let k = choose|k: int| 0 <= k < longer.len() && (#[trigger] longer[k]).tag == tag;
        if k < i {
            assert(shorter[k].tag == tag);
        }
    }
}

/// An event of two runs is an event of one of them.
proof fn lemma_has_event_concat(
    earlier: Seq<CompletionEvent>,
    later: Seq<CompletionEvent>,
    tag: usize,
)
    ensures
        has_event(earlier + later, tag) <==> has_event(earlier, tag) || has_event(later, tag),
{
    let all = earlier + later;
    if has_event(earlier, tag) {
        let k = choose|k: int| 0 <= k < earlier.len() && (#[trigger] earlier[k]).tag == tag;
        assert(all[k].tag == tag);
    }
    if has_event(later, tag) {
        let k = choose|k: int| 0 <= k < later.len() && (#[trigger] later[k]).tag == tag;
        assert(all[earlier.len() + k].tag == tag);
    }
    if has_event(all, tag) {
        let k = choose|k: int| 0 <= k < all.len() && (#[trigger] all[k]).tag == tag;
        if k < earlier.len() {
            assert(earlier[k].tag == tag);
        } else {
            assert(later[k - earlier.len()].tag == tag);
        }
    }
}

/// Taking in the kernel's answer keeps a pipeline valid, and every
/// completion taken in names a slot of the batch.
proof fn lemma_absorb_valid(before: ReceiveView, min_complete: nat, events: Seq<CompletionEvent>)
    requires
        before.valid(),
        after_wait(before.ring, min_complete, Ok::<Seq<CompletionEvent>, i32>(events)) is Ok,
    ensures
        before.absorbed(min_complete, events).valid(),
        forall|i: int| 0 <= i < events.len() ==> (#[trigger] events[i]).tag < before.batch_size(),
{
    let after = before.absorbed(min_complete, events);
    let old_out = before.ring.outstanding();
    let rest = after.ring.in_flight;
    let new_out = after.ring.outstanding();
    let all = after.ring.visible;
    lemma_completions_match(old_out, events);
    assert(new_out =~= rest);
    assert(all == before.ring.visible + events);
    assert forall|i: int| 0 <= i < events.len() implies (#[trigger] events[i]).tag
        < before.batch_size() by {
        assert(has_tag(old_out, events[i].tag));
    }
    assert forall|tag: usize| has_event(events, tag) implies has_tag(old_out, tag) by {
        let i = choose|i: int| 0 <= i < events.len() && (#[trigger] events[i]).tag == tag;
        assert(has_tag(old_out, events[i].tag));
    }
    assert forall|tag: usize|
        has_event(all, tag) <==> has_event(before.ring.visible, tag) || has_event(
            events,
            tag,
        ) by {
        lemma_has_event_concat(before.ring.visible, events, tag);
    }
    assert forall|i: int, j: int| 0 <= i < j < all.len() implies all[i].tag != all[j].tag by {
        let seen = before.ring.visible.len();
        if i < seen && j >= seen {
            let tag = all[i].tag;
            assert(before.ring.visible[i].tag == tag);
            assert(has_event(before.ring.visible, tag));
            assert(before.states[tag as int] == SlotState::Completed);
            assert(events[j - seen].tag == all[j].tag);
            assert(has_tag(old_out, events[j - seen].tag));
        } else if i >= seen {
            assert(events[i - seen].tag == all[i].tag);
            assert(events[j - seen].tag == all[j].tag);
        }
    }
    assert forall|j: int| 0 <= j < new_out.len() implies (#[trigger] new_out[j]) == after.rearm(
        new_out[j].tag,
    ) by {
        assert(old_out.contains(rest[j]));
        let k = choose|k: int| 0 <= k < old_out.len() && old_out[k] == rest[j];
        assert(old_out[k] == before.rearm(old_out[k].tag));
    }
    assert(distinct_events(all));
    assert(distinct_tags(new_out));
    assert(rest == retire(old_out, events)->Ok_0);
    assert forall|tag: usize| has_tag(new_out, tag) || has_event(all, tag) implies tag
        < after.slots.len() by {
        if has_tag(new_out, tag) {
            assert(has_tag(rest, tag));
            assert(has_tag(old_out, tag));
        }
        if has_event(all, tag) {
            if has_event(events, tag) {
                assert(has_tag(old_out, tag));
            } else {
                assert(has_event(before.ring.visible, tag));
            }
        }
    }
    assert forall|tag: int| 0 <= tag < after.slots.len() implies {
        &&& (#[trigger] after.states[tag]) == SlotState::Armed <==> has_tag(new_out, tag as usize)
        &&& after.states[tag] == SlotState::Completed <==> has_event(all, tag as usize)
    } by {
        let t = tag as usize;
        assert(before.states[tag] == SlotState::Armed <==> has_tag(old_out, t));
        assert(before.states[tag] == SlotState::Completed <==> has_event(before.ring.visible, t));
        assert(has_tag(rest, t) <==> has_tag(old_out, t) && !has_event(events, t));
    }
}

/// A drain pass keeps a pipeline valid.
proof fn lemma_pass_valid(before: ReceiveView, after: ReceiveView, arrivals: Seq<Arrival>)
    requires
        before.valid(),
        before.drained(after, arrivals),
        forall|tag: int|
            0 <= tag < after.slots.len() ==> (#[trigger] after.slots[tag]).valid()
                && after.slots[tag].tag == tag,
    ensures
        after.valid(),
{
    let events = before.ring.visible;
    let old_out = before.ring.outstanding();
    let fresh = events.map_values(|event: CompletionEvent| before.rearm(event.tag));
    let new_out = after.ring.outstanding();
    assert(new_out =~= old_out + fresh);
    assert forall|tag: usize| has_tag(new_out, tag) <==> has_tag(old_out, tag) || has_event(
        events,
        tag,
    ) by {
        if has_tag(old_out, tag) {
            let j = choose|j: int| 0 <= j < old_out.len() && (#[trigger] old_out[j]).tag == tag;
            assert(new_out[j].tag == tag);
        }
        if has_event(events, tag) {
            let i = choose|i: int| 0 <= i < events.len() && (#[trigger] events[i]).tag == tag;
            assert(new_out[old_out.len() + i].tag == tag);
        }
        if has_tag(new_out, tag) {
            let j = choose|j: int| 0 <= j < new_out.len() && (#[trigger] new_out[j]).tag == tag;
            if j < old_out.len() {
                assert(old_out[j].tag == tag);
            } else {
                assert(events[j - old_out.len()].tag == tag);
            }
        }
    }
    assert forall|i: int, j: int| 0 <= i < j < new_out.len() implies new_out[i].tag
        != new_out[j].tag by {
        let kept = old_out.len();
        if i < kept && j >= kept {
            assert(events[j - kept].tag == new_out[j].tag);
            assert(has_event(events, new_out[j].tag));
            assert(before.states[new_out[j].tag as int] == SlotState::Completed);
            assert(old_out[i].tag == new_out[i].tag);
            assert(has_tag(old_out, new_out[i].tag));
        } else if i >= kept {
            assert(events[i - kept].tag == new_out[i].tag);
            assert(events[j - kept].tag == new_out[j].tag);
        }
    }
    assert forall|j: int| 0 <= j < new_out.len() implies (#[trigger] new_out[j]) == after.rearm(
        new_out[j].tag,
    ) by {
        if j < old_out.len() {
            assert(new_out[j] == old_out[j]);
        }
    }
    assert forall|tag: int| 0 <= tag < after.slots.len() implies (#[trigger] after.states[tag])
        == SlotState::Armed && has_tag(new_out, tag as usize) by {
        if before.states[tag] == SlotState::Armed {
            assert(has_tag(old_out, tag as usize));
        } else {
            assert(before.states[tag] == SlotState::Completed);
            assert(has_event(events, tag as usize));
        }
    }
}

/// Writing a descriptor's buffers in place keeps a pipeline valid, as long
/// as their lengths stay.
proof fn lemma_write_keeps_valid(view: ReceiveView, tag: int)
    requires
        view.valid(),
        0 <= tag < view.batch_size(),
    ensures
        forall|bytes: Seq<u8>|
            bytes.len() == view.slots[tag].buffer.len() ==> (#[trigger] view.with_buffer(
                tag,
                bytes,
            )).valid(),
        forall|bytes: Seq<u8>|
            bytes.len() == view.slots[tag].storage.len() ==> (#[trigger] view.with_storage(
                tag,
                bytes,
            )).valid(),
{
    assert(view.slots[tag].valid());
    assert forall|bytes: Seq<u8>| bytes.len() == view.slots[tag].buffer.len() implies (
    #[trigger] view.with_buffer(tag, bytes)).valid() by {
        let after = view.with_buffer(tag, bytes);
        assert forall|other: int| 0 <= other < after.slots.len() implies (
        #[trigger] after.slots[other]).valid() && after.slots[other].tag == other by {
            assert(view.slots[other].valid());
        }
    }
    assert forall|bytes: Seq<u8>| bytes.len() == view.slots[tag].storage.len() implies (
    #[trigger] view.with_storage(tag, bytes)).valid() by {
        let after = view.with_storage(tag, bytes);
        assert forall|other: int| 0 <= other < after.slots.len() implies (
        #[trigger] after.slots[other]).valid() && after.slots[other].tag == other by {
            assert(view.slots[other].valid());
        }
    }
}

/// A failed receive stalls nothing. In a drain pass over a valid pipeline,
/// a completion with a negative result is reported as a failure, every
/// completion after it in the pass is still told as it would be alone, and
/// the failed slot is armed again with its receive outstanding.
pub proof fn lemma_failure_stalls_nothing(
    before: ReceiveView,
    after: ReceiveView,
    arrivals: Seq<Arrival>,
    failed: int,
)
    requires
        before.valid(),
        before.drained(after, arrivals),
        0 <= failed < before.ring.visible.len(),
        before.ring.visible[failed].result < 0,
    ensures
        arrivals.len() == before.ring.visible.len(),
        arrivals[failed] == (Arrival::Failed {
            tag: before.ring.visible[failed].tag,
            code: (-before.ring.visible[failed].result) as u32,
        }),
        forall|later: int|
            failed < later < arrivals.len() ==> #[trigger] arrivals[later] == arrival_of(
                before.ring.visible[later],
                before.slots[before.ring.visible[later].tag as int],
            ),
        before.ring.visible[failed].tag < after.states.len(),
        after.states[before.ring.visible[failed].tag as int] == SlotState::Armed,
        has_tag(after.ring.outstanding(), before.ring.visible[failed].tag),
{
    let events = before.ring.visible;
    let tag = events[failed].tag;
    assert(has_event(events, tag));
    let fresh = events.map_values(|event: CompletionEvent| before.rearm(event.tag));
    let out = after.ring.outstanding();
    assert(out =~= before.ring.outstanding() + fresh);
    assert(out[before.ring.outstanding().len() + failed].tag == tag);
}

/// A drain pass with nothing visible gives nothing and changes nothing.
proof fn lemma_idle_pass(before: ReceiveView, after: ReceiveView, arrivals: Seq<Arrival>)
    requires
        before.valid(),
        before.drained(after, arrivals),
        before.ring.visible.len() == 0,
    ensures
        after == before,
        arrivals.len() == 0,
{
    let events = before.ring.visible;
    assert(after.ring.staged =~= before.ring.staged);
    assert(after.ring.visible =~= before.ring.visible);
    assert(after.ring =~= before.ring);
    assert forall|tag: int| 0 <= tag < before.states.len() implies before.states[tag]
        == SlotState::Armed by {
        if before.states[tag] == SlotState::Completed {
            assert(has_event(events, tag as usize));
        }
    }
    assert(after.states =~= before.states);
    assert forall|tag: int| 0 <= tag < before.slots.len() implies after.slots[tag]
        == before.slots[tag] by {
        assert(!has_event(events, tag as usize));
    }
    assert(after.slots =~= before.slots);
    assert(after =~= before);
}

/// Counting one event more.
proof fn lemma_count_next(events: Seq<CompletionEvent>, i: int)
    requires
        0 <= i < events.len(),
    ensures
        datagram_count(events.take(i + 1)) == datagram_count(events.take(i)) + if events[i].result
            >= 0 {
            1nat
        } else {
            0nat
        },
        byte_count(events.take(i + 1)) == byte_count(events.take(i)) + if events[i].result >= 0 {
            events[i].result as nat
        } else {
            0nat
        },
{
    assert(events.take(i + 1).drop_last() =~= events.take(i));
    assert(events.take(i + 1).last() == events[i]);
}

/// Looks at one completed receive: tells what it brought, and records the
/// datagram's length and peer in the descriptor.
fn observe(descriptor: &mut Descriptor, event: CompletionEvent) -> (arrival: Arrival)
    requires
        old(descriptor).wf(),
    ensures
        final(descriptor).wf(),
        final(descriptor)@ == observed(old(descriptor)@, event),
        arrival == arrival_of(event, old(descriptor)@),
{
    if event.result < 0 {
        let magnitude: i64 = -(event.result as i64);
        let cleared = descriptor.set_valid_length(0);
        descriptor.set_endpoint(None);
        Arrival::Failed { tag: event.tag, code: magnitude as u32 }
    } else {
        let bytes = event.result as usize;
        let capacity = descriptor.capacity();
        let kept = if bytes <= capacity {
            bytes
        } else {
            capacity
        };
        let peer = decode(descriptor.storage());
        let marked = descriptor.set_valid_length(kept);
        descriptor.set_endpoint(
            match peer {
                Ok(endpoint) => Some(endpoint),
                Err(_) => None,
            },
        );
        Arrival::Datagram { tag: event.tag, bytes, peer }
    }
}

/// The receive side of the engine: a pool, a ring as deep as the pool is
/// large, and the state of each slot.
pub struct ReceivePipeline {
    pool: Pool,
    ring: Ring,
    socket: Target,
    states: Vec<SlotState>,
    datagrams: u64,
    bytes: u64,
}

impl View for ReceivePipeline {
    type V = ReceiveView;

    closed spec fn view(&self) -> ReceiveView {
        ReceiveView {
            socket: self.socket,
            ring: self.ring@,
            slots: self.pool@,
            states: self.states@,
            datagrams: self.datagrams,
            bytes: self.bytes,
        }
    }
}

impl ReceivePipeline {
    /// What every pipeline that `new` made satisfies, whatever was done with it.
    pub open spec fn wf(&self) -> bool {
        self@.valid()
    }

    /// Sets up the receive side with one descriptor per operation slot of
    /// `config`, each with a buffer of `buffer_capacity` bytes, and stages a
    /// receive on `socket` for every one of them. `setup` is what the kernel
    /// said of the ring: `Ok`, or the error code with which it refused.
    pub fn new(
        config: RingConfig,
        buffer_capacity: usize,
        socket: Target,
        setup: Result<(), i32>,
    ) -> (result: Result<ReceivePipeline, RingInitError>)
        ensures
            match result {
                Ok(pipeline) => {
                    &&& build_result(config, setup) is Ok
                    &&& pipeline.wf()
                    &&& pipeline@ == ReceiveView::initial(config, buffer_capacity, socket)
                },
                Err(error) => build_result(config, setup) == Err::<(), RingInitError>(error),
            },
    {
        let mut ring = match Ring::build(config, setup) {
            Err(error) => {
                return Err(error);
            },
            Ok(ring) => ring,
        };
        let size = config.queue_depth as usize;
        let pool = Pool::allocate(size, buffer_capacity);
        let staged = ring.stage_batch(OpKind::RecvMsg, socket, size);
        assert(RingView::fresh(config).outstanding() =~= Seq::<Operation>::empty());
        assert(staged is Ok);
        let mut states: Vec<SlotState> = Vec::new();
        let mut tag: usize = 0;
        while tag < size
            invariant
                tag <= size,
                states@ == Seq::new(tag as nat, |tag: int| SlotState::Armed),
            decreases size - tag,
        {
            states.push(SlotState::Armed);
            tag += 1;
            assert(states@ =~= Seq::new(tag as nat, |tag: int| SlotState::Armed));
        }
        let pipeline = ReceivePipeline { pool, ring, socket, states, datagrams: 0, bytes: 0 };
        proof {
            let first = ReceiveView::initial(config, buffer_capacity, socket);
            assert(pipeline@.ring.staged =~= first.ring.staged);
            assert(pipeline@.slots =~= first.slots);
            assert(pipeline@ =~= first);
            lemma_batch_tags(OpKind::RecvMsg, socket, size as nat);
            assert(first.ring.outstanding() =~= first.ring.staged);
            assert forall|tag: usize| !has_event(first.ring.visible, tag) by {}
        }
        Ok(pipeline)
    }

    /// How many receives the engine keeps outstanding.
    pub fn batch_size(&self) -> (size: usize)
        ensures
            size == self@.batch_size(),
    {
        self.pool.len()
    }

    /// The socket that every operation names.
    pub fn socket(&self) -> (socket: Target)
        ensures
            socket == self@.socket,
    {
        self.socket
    }

    /// Datagrams and payload bytes received so far.
    pub fn totals(&self) -> (totals: (u64, u64))
        ensures
            totals.0 == self@.datagrams,
            totals.1 == self@.bytes,
    {
        (self.datagrams, self.bytes)
    }

    /// The operations staged since the last flush: what the caller must hand
    /// to the kernel before it reports the flush.
    pub fn staged(&self) -> (ops: &Vec<Operation>)
        ensures
            ops@ == self@.ring.staged,
    {
        self.ring.staged()
    }

    /// The descriptor with tag `tag`, to read.
    pub fn descriptor(&self, tag: usize) -> (descriptor: Option<&Descriptor>)
        ensures
            match descriptor {
                Some(descriptor) => tag < self@.batch_size() && descriptor@
                    == self@.slots[tag as int],
                None => tag >= self@.batch_size(),
            },
    {
        self.pool.peek(tag)
    }

    /// The state of slot `tag`; none for a tag beyond the batch.
    pub fn slot_state(&self, tag: usize) -> (state: Option<SlotState>)
        requires
            self.wf(),
        ensures
            state == if tag < self@.batch_size() {
                Some(self@.states[tag as int])
            } else {
                None
            },
    {
        if tag < self.states.len() {
            Some(self.states[tag])
        } else {
            None
        }
    }

    /// How many slots are armed.
    pub fn armed(&self) -> (count: usize)
        ensures
            count == armed_count(self@.states),
    {
        let mut count: usize = 0;
        let mut tag: usize = 0;
        while tag < self.states.len()
            invariant
                tag <= self.states@.len(),
                count <= tag,
                count == armed_count(self.states@.take(tag as int)),
            decreases self.states@.len() - tag,
        {
            assert(self.states@.take(tag + 1).drop_last() =~= self.states@.take(tag as int));
            if self.states[tag] == SlotState::Armed {
                count += 1;
            }
            tag += 1;
        }
        assert(self.states@.take(tag as int) =~= self.states@);
        count
    }

    /// Takes in the kernel's answer to a flush that waited for
    /// `min_complete` completions.
    fn absorb(
        &mut self,
        min_complete: usize,
        reply: Result<Vec<CompletionEvent>, i32>,
    ) -> (result: Result<usize, IoError>)
        requires
            old(self).wf(),
        ensures
            final(self).wf(),
            match result {
                Ok(count) => {
                    &&& after_wait(old(self)@.ring, min_complete as nat, answer_view(reply)) is Ok
                    &&& reply matches Ok(events) && count == events@.len() && final(self)@ == old(
                        self,
                    )@.absorbed(min_complete as nat, events@)
                },
                Err(error) => {
                    &&& after_wait(old(self)@.ring, min_complete as nat, answer_view(reply))
                        == Err::<RingView, IoError>(error)
                    &&& final(self)@ == old(self)@
                },
            },
    {
        let ghost before = self@;
        let ghost answer = answer_view(reply);
        let seen = self.ring.visible().len();
        let count = match self.ring.submit_and_wait(min_complete, reply) {
            Err(error) => {
                return Err(error);
            },
            Ok(count) => count,
        };
        let ghost events = answer->Ok_0;
        let ghost after = before.absorbed(min_complete as nat, events);
        proof {
            lemma_absorb_valid(before, min_complete as nat, events);
        }
        let mut i: usize = 0;
        while i < count
            invariant
                i <= count,
                count == events.len(),
                seen == before.ring.visible.len(),
                self.ring@ == after.ring,
                after.ring.visible == before.ring.visible + events,
                self.pool@ == before.slots,
                self.socket == before.socket,
                self.datagrams == before.datagrams,
                self.bytes == before.bytes,
                self.states@ == marked(before.states, events.take(i as int)),
                before.states.len() == before.batch_size(),
                before.batch_size() <= u32::MAX,
                forall|k: int|
                    0 <= k < events.len() ==> (#[trigger] events[k]).tag < before.batch_size(),
            decreases count - i,
        {
            let visible = self.ring.visible();
            assert(visible@.len() == seen + count);
            let total = visible.len();
            let tag = visible[seen + i].tag;
            assert(tag == events[i as int].tag);
            self.states[tag] = SlotState::Completed;
            proof {
                assert forall|other: int|
                    0 <= other < before.states.len() implies self.states@[other] == marked(
                    before.states,
                    events.take(i + 1),
                )[other] by {
                    lemma_has_event_next(events, i as int, other as usize);
                }
                assert(self.states@ =~= marked(before.states, events.take(i + 1)));
            }
            i += 1;
        }
        proof {
            assert(events.take(i as int) =~= events);
            assert(self@ =~= after);
        }
        Ok(count)
    }

    /// Takes in the kernel's answer to a blocking flush. Only when nothing
    /// is visible does the engine block, so the caller has flushed the
    /// staged operations and waited for one completion; `reply` is the error
    /// code of a failed call, or the completions that became visible. Their
    /// slots are completed. Returns how many became visible. On any error
    /// the pipeline is left as it was.
    pub fn wait(&mut self, reply: Result<Vec<CompletionEvent>, i32>) -> (result: Result<
        usize,
        IoError,
    >)
        requires
            old(self).wf(),
            old(self)@.ring.visible.len() == 0,
        ensures
            final(self).wf(),
            armed_count(old(self)@.states) == old(self)@.batch_size(),
            match result {
                Ok(count) => {
                    &&& after_wait(old(self)@.ring, 1, answer_view(reply)) is Ok
                    &&& reply matches Ok(events) && count == events@.len() && final(self)@ == old(
                        self,
                    )@.absorbed(1, events@)
                },
                Err(error) => {
                    &&& after_wait(old(self)@.ring, 1, answer_view(reply)) == Err::<
                        RingView,
                        IoError,
                    >(error)
                    &&& final(self)@ == old(self)@
                },
            },
    {
        proof {
            lemma_armed_before_wait(self@);
        }
        self.absorb(1, reply)
    }

    /// Takes in the kernel's answer to a flush that did not block: the
    /// caller has flushed the staged operations and looked for completions
    /// without waiting. Otherwise as `wait`.
    pub fn poll(&mut self, reply: Result<Vec<CompletionEvent>, i32>) -> (result: Result<
        usize,
        IoError,
    >)
        requires
            old(self).wf(),
        ensures
            final(self).wf(),
            match result {
                Ok(count) => {
                    &&& after_wait(old(self)@.ring, 0, answer_view(reply)) is Ok
                    &&& reply matches Ok(events) && count == events@.len() && final(self)@ == old(
                        self,
                    )@.absorbed(0, events@)
                },
                Err(error) => {
                    &&& after_wait(old(self)@.ring, 0, answer_view(reply)) == Err::<
                        RingView,
                        IoError,
                    >(error)
                    &&& final(self)@ == old(self)@
                },
            },
    {
        self.absorb(0, reply)
    }

    /// One drain pass. Takes every visible completion off the ring and, for
    /// each in turn, tells what it brought, records the datagram in its
    /// descriptor and stages the next receive for its slot. A failed receive
    /// is reported like any other and its slot re-armed like any other. The
    /// ring always has room for the receives staged here. With nothing
    /// visible the pass returns nothing and changes nothing.
    pub fn drain_pass(&mut self) -> (arrivals: Vec<Arrival>)
        requires
            old(self).wf(),
        ensures
            final(self).wf(),
            old(self)@.drained(final(self)@, arrivals@),
            armed_count(final(self)@.states) == final(self)@.batch_size(),
            old(self)@.ring.visible.len() == 0 ==> final(self)@ == old(self)@ && arrivals@.len()
                == 0,
    {
        let ghost before = self@;
        let events = self.ring.drain();
        let ghost seen = events@;
        let size = self.pool.len();
        let mut arrivals: Vec<Arrival> = Vec::new();
        let mut i: usize = 0;
        proof {
            assert(seen.take(0).map_values(|event: CompletionEvent| before.rearm(event.tag))
                =~= Seq::<Operation>::empty());
            assert(self.ring@.staged =~= before.ring.staged + seen.take(0).map_values(
                |event: CompletionEvent| before.rearm(event.tag),
            ));
            assert forall|k: int| 0 <= k < seen.len() implies (#[trigger] seen[k]).tag < size by {
                assert(has_event(seen, seen[k].tag));
            }
        }
        while i < events.len()
            invariant
                i <= events@.len(),
                events@ == seen,
                seen == before.ring.visible,
                before.valid(),
                self.socket == before.socket,
                self.ring.wf(),
                size == before.batch_size(),
                self.pool.size() == size,
                self.states@.len() == size,
                self.ring@ == (RingView {
                    staged: before.ring.staged + seen.take(i as int).map_values(
                        |event: CompletionEvent| before.rearm(event.tag),
                    ),
                    visible: Seq::empty(),
                    ..before.ring
                }),
                arrivals@.len() == i,
                forall|k: int| 0 <= k < seen.len() ==> (#[trigger] seen[k]).tag < size,
                forall|k: int|
                    0 <= k < i ==> #[trigger] arrivals@[k] == arrival_of(
                        seen[k],
                        before.slots[seen[k].tag as int],
                    ),
                forall|k: int|
                    0 <= k < i ==> self.pool@[(#[trigger] seen[k]).tag as int] == observed(
                        before.slots[seen[k].tag as int],
                        seen[k],
                    ),
                forall|tag: int|
                    0 <= tag < size && !has_event(seen.take(i as int), tag as usize)
                        ==> #[trigger] self.pool@[tag] == before.slots[tag],
                forall|tag: int|
                    0 <= tag < size ==> (#[trigger] self.states@[tag] == SlotState::Armed <==> (
                    before.states[tag] == SlotState::Armed || has_event(
                        seen.take(i as int),
                        tag as usize,
                    ))),
                self.datagrams == saturating(
                    before.datagrams + datagram_count(seen.take(i as int)),
                ),
                self.bytes == saturating(before.bytes + byte_count(seen.take(i as int))),
            decreases events@.len() - i,
        {
            let event = events[i];
            let tag = event.tag;
            proof {
                assert(seen[i as int].tag == tag);
                assert(has_event(seen, tag));
                lemma_count_next(seen, i as int);
                assert forall|other: usize| #[trigger]
                    has_event(seen.take(i + 1), other) <==> has_event(seen.take(i as int), other)
                        || other == tag by {
                    lemma_has_event_next(seen, i as int, other);
                }
                if has_event(seen.take(i as int), tag) {
                    let k = choose|k: int|
                        0 <= k < seen.take(i as int).len() && (#[trigger] seen.take(
                            i as int,
                        )[k]).tag == tag;
                    assert(seen[k].tag == seen[i as int].tag);
                }
                assert(self.pool@[tag as int] == before.slots[tag as int]);
                assert(self.pool.slot(tag as int).wf());
                assert(self.ring@.outstanding() =~= before.ring.outstanding() + seen.take(
                    i as int,
                ).map_values(|event: CompletionEvent| before.rearm(event.tag)));
            }
            let ghost pool_before = self.pool;
            let arrival = observe(self.pool.at(tag), event);
            arrivals.push(arrival);
            let restaged = self.ring.stage(
                Operation { kind: OpKind::RecvMsg, target: self.socket, tag },
            );
            assert(restaged is Ok);
            self.states[tag] = SlotState::Armed;
            if event.result >= 0 {
                let brought = event.result as u64;
                self.datagrams = if self.datagrams < u64::MAX {
                    self.datagrams + 1
                } else {
                    u64::MAX
                };
                self.bytes = if brought <= u64::MAX - self.bytes {
                    self.bytes + brought
                } else {
                    u64::MAX
                };
            }
            proof {
                assert(seen.take(i + 1).map_values(|event: CompletionEvent| before.rearm(event.tag))
                    =~= seen.take(i as int).map_values(
                    |event: CompletionEvent| before.rearm(event.tag),
                ).push(before.rearm(tag)));
                assert(self.ring@.staged =~= before.ring.staged + seen.take(i + 1).map_values(
                    |event: CompletionEvent| before.rearm(event.tag),
                ));
                assert forall|other: int| 0 <= other < size implies self.pool@[other] == if other
                    == tag {
                    observed(before.slots[tag as int], event)
                } else {
                    pool_before@[other]
                } by {}
                assert forall|k: int|
                    0 <= k < i + 1 implies self.pool@[(#[trigger] seen[k]).tag as int] == observed(
                    before.slots[seen[k].tag as int],
                    seen[k],
                ) by {
                    assert(has_event(seen, seen[k].tag));
                    if k < i {
                        assert(seen[k].tag != seen[i as int].tag);
                        assert(pool_before@[seen[k].tag as int] == observed(
                            before.slots[seen[k].tag as int],
                            seen[k],
                        ));
                    }
                }
            }
            i += 1;
        }
        proof {
            assert(seen.take(i as int) =~= seen);
            let after = self@;
            assert(after.states =~= Seq::new(before.states.len(), |tag: int| SlotState::Armed)) by {
                assert forall|tag: int| 0 <= tag < size implies after.states[tag]
                    == SlotState::Armed by {
                    if before.states[tag] == SlotState::Completed {
                        assert(has_event(seen, tag as usize));
                    }
                }
            }
            assert(after.slots.len() == before.slots.len());
            assert(before.drained(after, arrivals@));
            assert forall|tag: int| 0 <= tag < after.slots.len() implies (
            #[trigger] after.slots[tag]).valid() && after.slots[tag].tag == tag by {
                assert(before.slots[tag].valid());
                if has_event(seen, tag as usize) {
                    let k = choose|k: int| 0 <= k < seen.len() && (#[trigger] seen[k]).tag == tag;
                    assert(after.slots[seen[k].tag as int] == observed(
                        before.slots[seen[k].tag as int],
                        seen[k],
                    ));
                }
            }
            lemma_pass_valid(before, after, arrivals@);
            lemma_armed_all(after.states);
            if seen.len() == 0 {
                lemma_idle_pass(before, after, arrivals@);
            }
        }
        arrivals
    }

    /// The payload buffer of descriptor `tag`, for the kernel to fill; none
    /// for a tag beyond the batch. The caller must not touch it while a
    /// receive for the slot is in the kernel's hands. As long as the length
    /// stays, as that of a slice does, the pipeline stays well formed.
    pub fn buffer_mut(&mut self, tag: usize) -> (bytes: Option<&mut [u8]>)
        requires
            old(self).wf(),
        ensures
            bytes is Some <==> tag < old(self)@.batch_size(),
            bytes is None ==> final(self)@ == old(self)@,
            bytes matches Some(slice) ==> slice@ == old(self)@.slots[tag as int].buffer,
            bytes matches Some(slice) ==> final(self)@ == old(self)@.with_buffer(
                tag as int,
                final(slice)@,
            ),
            bytes matches Some(slice) ==> (final(slice)@.len() == slice@.len() ==> final(
                self
            ).wf()),
    {
        if tag < self.pool.len() {
            proof {
                lemma_write_keeps_valid(self@, tag as int);
                assert(self@.slots[tag as int] == self.pool.slot(tag as int)@);
            }
            let bytes = self.pool.at(tag).buffer_mut();
            Some(bytes)
        } else {
            None
        }
    }

    /// The raw address block of descriptor `tag`, for the kernel to fill;
    /// none for a tag beyond the batch. Otherwise as `buffer_mut`.
    pub fn storage_mut(&mut self, tag: usize) -> (bytes: Option<&mut [u8]>)
        requires
            old(self).wf(),
        ensures
            bytes is Some <==> tag < old(self)@.batch_size(),
            bytes is None ==> final(self)@ == old(self)@,
            bytes matches Some(slice) ==> slice@ == old(self)@.slots[tag as int].storage,
            bytes matches Some(slice) ==> final(self)@ == old(self)@.with_storage(
                tag as int,
                final(slice)@,
            ),
            bytes matches Some(slice) ==> (final(slice)@.len() == slice@.len() ==> final(
                self
            ).wf()),
    {
        if tag < self.pool.len() {
            proof {
                lemma_write_keeps_valid(self@, tag as int);
                assert(self@.slots[tag as int] == self.pool.slot(tag as int)@);
            }
            let bytes = self.pool.at(tag).storage_mut();
            Some(bytes)
        } else {
            None
        }
    }

    /// Replaces the ring's table of registered files.
    pub fn register_fixed_files(&mut self, fds: Vec<i32>)
        requires
            old(self).wf(),
        ensures
            final(self).wf(),
            final(self)@ == (ReceiveView {
                ring: RingView { files: fds@, ..old(self)@.ring },
                ..old(self)@
            }),
    {
        self.ring.register_fixed_files(fds);
        proof {
            assert(self@.ring.outstanding() =~= old(self)@.ring.outstanding());
        }
    }

    /// What the engine does next: it drains while completions are visible,
    /// and blocks only when none is.
    pub fn next_step(&self) -> (step: Step)
        ensures
            step == if self@.ring.visible.len() == 0 {
                Step::Wait
            } else {
                Step::Drain
            },
    {
        if self.ring.visible().len() == 0 {
            Step::Wait
        } else {
            Step::Drain
        }
    }
}

} // verus!
