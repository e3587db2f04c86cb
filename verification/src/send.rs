//! The send pipeline.
//!
//! One cycle stages a send for every descriptor, flushes the batch, waits
//! for all of it and reports each entry's result. The destination is
//! encoded once and shared by every operation; the payloads stay as they
//! are from cycle to cycle unless the caller fills in new ones between
//! cycles.

use crate::address::{encode, storage_image, wire, Endpoint};
use crate::descriptor::{Descriptor, DescriptorView, FillError, Pool};
use crate::outcome::{classify_all, outcome_of, Outcome};
use crate::ring::{
    after_wait, answer_view, batch, build_result, has_tag, lemma_batch_tags,
    lemma_completions_match, position, CompletionEvent, IoError, OpKind, Operation, QueueFull,
    Ring, RingConfig, RingInitError, RingView, Target,
};
use vstd::prelude::*;

verus! {

/// A send pipeline as contracts see it.
#[verifier::ext_equal]
pub struct SendView {
    /// The socket that every operation names.
    pub socket: Target,
    /// Where every datagram goes.
    pub peer: Endpoint,
    pub ring: RingView,
    /// The descriptors, by tag.
    pub slots: Seq<DescriptorView>,
}

impl SendView {
    /// How many datagrams one cycle sends.
    pub open spec fn batch_size(self) -> nat {
        self.slots.len()
    }

    /// The operations of one cycle.
    pub open spec fn cycle(self) -> Seq<Operation> {
        batch(OpKind::SendMsg, self.socket, self.slots.len())
    }

    /// Between calls the kernel holds nothing: a cycle is staged or it is
    /// over. The ring is as deep as the pool is large.
    pub open spec fn valid(self) -> bool {
        &&& self.ring.valid()
        &&& self.ring.depth() == self.slots.len()
        &&& self.ring.in_flight.len() == 0
        &&& self.ring.visible.len() == 0
        &&& (self.ring.staged.len() == 0 || self.ring.staged == self.cycle())
        &&& forall|tag: int|
            0 <= tag < self.slots.len() ==> (#[trigger] self.slots[tag]).valid()
                && self.slots[tag].tag == tag
    }

    /// A pipeline that has sent nothing: every descriptor holds a datagram
    /// of `buffer_size` zero bytes.
    pub open spec fn initial(
        config: RingConfig,
        buffer_size: usize,
        socket: Target,
        peer: Endpoint,
    ) -> SendView {
        SendView {
            socket,
            peer,
            ring: RingView::fresh(config),
            slots: Seq::new(
                config.queue_depth as nat,
                |tag: int|
                    DescriptorView {
                        valid_length: buffer_size,
                        ..DescriptorView::blank(tag as usize, buffer_size)
                    },
            ),
        }
    }
}

/// One full send cycle sees each of its operations complete exactly once.
/// Where a whole batch is staged and the flush that waits for all of it
/// succeeds, there are as many completions as the batch has operations, no
/// two carry the same tag, each tag is below the batch size, and nothing is
/// left outstanding.
pub proof fn lemma_cycle_completes(view: SendView, events: Seq<CompletionEvent>)
    requires
        view.valid(),
        view.batch_size() >= 1,
        view.ring.staged == view.cycle(),
        after_wait(
            view.ring,
            view.batch_size(),
            Ok::<Seq<CompletionEvent>, i32>(events),
        ) is Ok,
    ensures
        events.len() == view.batch_size(),
        forall|i: int| 0 <= i < events.len() ==> (#[trigger] events[i]).tag < view.batch_size(),
        forall|i: int, j: int| 0 <= i < j < events.len() ==> events[i].tag != events[j].tag,
        after_wait(
            view.ring,
            view.batch_size(),
            Ok::<Seq<CompletionEvent>, i32>(events),
        )->Ok_0.in_flight.len() == 0,
{
    let size = view.batch_size();
    let ops = view.ring.outstanding();
    assert(ops =~= view.cycle());
    lemma_batch_tags(OpKind::SendMsg, view.socket, size);
    lemma_completions_match(ops, events);
    assert forall|i: int| 0 <= i < events.len() implies (#[trigger] events[i]).tag < size by {
        assert(has_tag(ops, events[i].tag));
    }
}

/// The send side of the engine: a pool, a ring as deep as the pool is large,
/// and the encoded destination.
pub struct SendPipeline {
    pool: Pool,
    ring: Ring,
    socket: Target,
    peer: Endpoint,
    destination: Vec<u8>,
    destination_length: usize,
}

impl View for SendPipeline {
    type V = SendView;

    closed spec fn view(&self) -> SendView {
        SendView { socket: self.socket, peer: self.peer, ring: self.ring@, slots: self.pool@ }
    }
}

impl SendPipeline {
    /// The pool is well formed, and the destination block is the encoding
    /// of the peer.
    pub closed spec fn sealed(&self) -> bool {
        &&& self.pool.wf()
        &&& self.destination@ == storage_image(self.peer)
        &&& self.destination_length == wire(self.peer).len()
    }

    /// What every pipeline that `new` made satisfies, whatever was done with it.
    pub open spec fn wf(&self) -> bool {
        &&& self@.valid()
        &&& self.sealed()
    }

    /// Sets up the send side for one datagram per operation slot of
    /// `config`, each of `buffer_size` zero bytes, all going from `socket`
    /// to `destination`. `setup` is what the kernel said of the ring: `Ok`,
    /// or the error code with which it refused.
    pub fn new(
        config: RingConfig,
        buffer_size: usize,
        socket: Target,
        destination: Endpoint,
        setup: Result<(), i32>,
    ) -> (result: Result<SendPipeline, RingInitError>)
        ensures
            match result {
                Ok(pipeline) => {
                    &&& build_result(config, setup) is Ok
                    &&& pipeline.wf()
                    &&& pipeline@ == SendView::initial(config, buffer_size, socket, destination)
                },
                Err(error) => build_result(config, setup) == Err::<(), RingInitError>(error),
            },
    {
        let ring = match Ring::build(config, setup) {
            Err(error) => {
                return Err(error);
            },
            Ok(ring) => ring,
        };
        let size = config.queue_depth as usize;
        let mut pool = Pool::allocate(size, buffer_size);
        let mut tag: usize = 0;
        while tag < size
            invariant
                tag <= size,
                pool.wf(),
                pool.size() == size,
                pool.spec_buffer_capacity() == buffer_size,
                forall|i: int|
                    0 <= i < size ==> (#[trigger] pool.slot(i))@ == (DescriptorView {
                        valid_length: if i < tag {
                            buffer_size
                        } else {
                            0
                        },
                        ..DescriptorView::blank(i as usize, buffer_size)
                    }),
            decreases size - tag,
        {
            let ghost before = pool;
            match pool.get(tag) {
                Some(descriptor) => {
                    let marked = descriptor.set_valid_length(buffer_size);
                    assert(marked is Ok);
                },
                None => {},
            }
            assert(pool.slot(tag as int)@ == (DescriptorView {
                valid_length: buffer_size,
                ..before.slot(tag as int)@
            }));
            tag += 1;
        }
        let (raw, length) = encode(destination);
        let pipeline = SendPipeline {
            pool,
            ring,
            socket,
            peer: destination,
            destination: raw,
            destination_length: length,
        };
        assert(pipeline@.slots =~= SendView::initial(
            config,
            buffer_size,
            socket,
            destination,
        ).slots);
        Ok(pipeline)
    }

    /// How many datagrams one cycle sends.
    pub fn batch_size(&self) -> (size: usize)
        ensures
            size == self@.batch_size(),
    {
        self.pool.len()
    }

    /// The socket that every operation names.
    pub fn socket(&self) -> (socket: Target)
        ensures
            socket == self@.socket,
    {
        self.socket
    }

    /// Where every datagram goes.
    pub fn peer(&self) -> (peer: Endpoint)
        ensures
            peer == self@.peer,
    {
        self.peer
    }

    /// The raw address block of the destination, shared by every operation,
    /// and how many of its bytes the destination occupies.
    pub fn destination(&self) -> (out: (&[u8], usize))
        requires
            self.wf(),
        ensures
            out.0@ == storage_image(self@.peer),
            out.1 == wire(self@.peer).len(),
    {
        (self.destination.as_slice(), self.destination_length)
    }

    /// The operations staged since the last flush: what the caller must hand
    /// to the kernel before it reports the flush.
    pub fn staged(&self) -> (ops: &Vec<Operation>)
        ensures
            ops@ == self@.ring.staged,
    {
        self.ring.staged()
    }

    /// The descriptor with tag `tag`, to read.
    pub fn descriptor(&self, tag: usize) -> (descriptor: Option<&Descriptor>)
        ensures
            match descriptor {
                Some(descriptor) => tag < self@.batch_size() && descriptor@
                    == self@.slots[tag as int],
                None => tag >= self@.batch_size(),
            },
    {
        self.pool.peek(tag)
    }

    /// Replaces the datagram of descriptor `tag` by `payload`, for the next
    /// cycle. A tag beyond the batch or a payload longer than the buffer is
    /// refused and changes nothing.
    pub fn fill(&mut self, tag: usize, payload: &[u8]) -> (result: Result<(), FillError>)
        requires
            old(self).wf(),
        ensures
            final(self).wf(),
            match result {
                Ok(()) => {
                    &&& tag < old(self)@.batch_size()
                    &&& payload@.len() <= old(self)@.slots[tag as int].buffer.len()
                    &&& final(self)@ == (SendView {
                        slots: old(self)@.slots.update(
                            tag as int,
                            old(self)@.slots[tag as int].filled(payload@),
                        ),
                        ..old(self)@
                    })
                    &&& final(self)@.slots[tag as int].valid_length == payload@.len()
                },
                Err(FillError::NoSuchTag(missing)) => missing == tag && tag >= old(
                    self,
                )@.batch_size() && final(self)@ == old(self)@,
                Err(FillError::TooLong(excess)) => {
                    &&& tag < old(self)@.batch_size()
                    &&& payload@.len() > old(self)@.slots[tag as int].buffer.len()
                    &&& excess.requested == payload@.len()
                    &&& excess.capacity == old(self)@.slots[tag as int].buffer.len()
                    &&& final(self)@ == old(self)@
                },
            },
    {
        let result = self.pool.fill(tag, payload);
        proof {
            if tag < old(self)@.batch_size() {
                assert(old(self).pool.slot(tag as int).wf());
                assert(old(self).pool@[tag as int] == old(self).pool.slot(tag as int)@);
            }
            assert forall|other: int| 0 <= other < self@.slots.len() implies (
            #[trigger] self@.slots[other]).valid() && self@.slots[other].tag == other by {
                assert(self.pool.slot(other).wf());
            }
        }
        result
    }

    /// Stages the cycle: one send for every descriptor, in order of tag.
    /// Returns how many completions the flush must wait for. Where a cycle
    /// is staged already, it stages nothing and fails.
    pub fn stage_batch(&mut self) -> (result: Result<usize, QueueFull>)
        requires
            old(self).wf(),
        ensures
            final(self).wf(),
            match result {
                Ok(count) => {
                    &&& old(self)@.ring.staged.len() == 0
                    &&& count == old(self)@.batch_size()
                    &&& final(self)@ == (SendView {
                        ring: RingView { staged: old(self)@.cycle(), ..old(self)@.ring },
                        ..old(self)@
                    })
                },
                Err(_) => old(self)@.ring.staged.len() > 0 && final(self)@ == old(self)@,
            },
    {
        let size = self.pool.len();
        let result = self.ring.stage_batch(OpKind::SendMsg, self.socket, size);
        proof {
            let ring = old(self)@.ring;
            assert(ring.outstanding() =~= ring.staged);
            if result is Ok {
                assert(self@.ring.staged =~= old(self)@.cycle());
                assert(self@.ring.outstanding() =~= self@.ring.staged);
            } else {
                assert(ring.depth() >= 1);
            }
        }
        match result {
            Ok(()) => Ok(size),
            Err(full) => Err(full),
        }
    }

    /// Ends the cycle. The caller has flushed the staged batch to the kernel
    /// and waited for all of it; `reply` is the error code of a failed call,
    /// or the completions that became visible. Returns each entry's result,
    /// in the order the kernel finished them. On any error the pipeline is
    /// left as it was.
    pub fn complete_batch(&mut self, reply: Result<Vec<CompletionEvent>, i32>) -> (result: Result<
        Vec<Outcome>,
        IoError,
    >)
        requires
            old(self).wf(),
        ensures
            final(self).wf(),
            match result {
                Ok(outcomes) => {
                    &&& after_wait(
                        old(self)@.ring,
                        old(self)@.batch_size(),
                        answer_view(reply),
                    ) is Ok
                    &&& reply matches Ok(events) && outcomes@ == events@.map_values(
                        |event: CompletionEvent| outcome_of(event),
                    )
                    &&& outcomes@.len() == old(self)@.ring.staged.len()
                    &&& forall|i: int|
                        0 <= i < outcomes@.len() ==> (#[trigger] outcomes@[i]).spec_tag() < old(
                            self,
                        )@.batch_size()
                    &&& forall|i: int, j: int|
                        0 <= i < j < outcomes@.len() ==> outcomes@[i].spec_tag()
                            != outcomes@[j].spec_tag()
                    &&& final(self)@ == (SendView {
                        ring: RingView { staged: Seq::empty(), ..old(self)@.ring },
                        ..old(self)@
                    })
                },
                Err(error) => {
                    &&& after_wait(
                        old(self)@.ring,
                        old(self)@.batch_size(),
                        answer_view(reply),
                    ) == Err::<RingView, IoError>(error)
                    &&& final(self)@ == old(self)@
                },
            },
    {
        let size = self.pool.len();
        let ghost before = self@;
        let ghost answer = answer_view(reply);
        match self.ring.submit_and_wait(size, reply) {
            Err(error) => Err(error),
            Ok(_) => {
                let events = self.ring.drain();
                let outcomes = classify_all(&events);
                proof {
                    let reported = answer->Ok_0;
                    assert(before.ring.visible + reported =~= reported);
                    assert(before.ring.outstanding() =~= before.ring.staged);
                    if before.ring.staged.len() == 0 {
                        if reported.len() > 0 {
                            assert(position(before.ring.outstanding(), reported[0].tag) == 0);
                        }
                        assert(reported.len() == 0);
                    } else {
                        lemma_cycle_completes(before, reported);
                    }
                    assert(self@.ring.in_flight =~= before.ring.in_flight);
                    assert(self@.ring.visible =~= before.ring.visible);
                    assert(self@.ring =~= RingView { staged: Seq::empty(), ..before.ring });
                    assert forall|i: int| 0 <= i < outcomes@.len() implies (
                    #[trigger] outcomes@[i]).spec_tag() < before.batch_size() by {
                        assert(outcomes@[i] == outcome_of(reported[i]));
                    }
                    assert forall|i: int, j: int|
                        0 <= i < j < outcomes@.len() implies outcomes@[i].spec_tag()
                        != outcomes@[j].spec_tag() by {
                        assert(outcomes@[i] == outcome_of(reported[i]));
                        assert(outcomes@[j] == outcome_of(reported[j]));
                    }
                }
                Ok(outcomes)
            },
        }
    }
}

} // verus!
