use udp_ring::address::{encode, DecodeError, Endpoint};
use udp_ring::outcome::Outcome;
use udp_ring::receive::{Arrival, ReceivePipeline, SlotState, Step};
use udp_ring::ring::{
    CompletionEvent, IoError, OpKind, Operation, RingConfig, RingInitError, Target,
};
use udp_ring::send::SendPipeline;

fn sender_address() -> Endpoint {
    Endpoint::v4(127, 0, 0, 1, 49152)
}

fn engine(batch: u32, capacity: usize) -> ReceivePipeline {
    let config = RingConfig { queue_depth: batch, no_fork: true, kernel_poll: Some(1) };
    ReceivePipeline::new(config, capacity, Target::Handle(4), Ok(()))
        .expect("the kernel accepted the ring")
}

fn recv(tag: usize) -> Operation {
    Operation { kind: OpKind::RecvMsg, target: Target::Handle(4), tag }
}

fn got(tag: usize, result: i32) -> CompletionEvent {
    CompletionEvent { tag, result }
}

// What the kernel does to a descriptor before it reports a receive.
fn kernel_fills(pipeline: &mut ReceivePipeline, tag: usize, payload: &[u8], from: Endpoint) {
    let buffer = pipeline.buffer_mut(tag).expect("a buffer for the tag");
    buffer[..payload.len()].copy_from_slice(payload);
    let (raw, _) = encode(from);
    let storage = pipeline.storage_mut(tag).expect("an address block for the tag");
    storage.copy_from_slice(&raw);
}

fn states(pipeline: &ReceivePipeline) -> Vec<SlotState> {
    (0..pipeline.batch_size())
        .map(|tag| pipeline.slot_state(tag).expect("a state for every tag"))
        .collect()
}

#[test]
fn new_receive_pipeline_arms_every_slot() {
    let pipeline = engine(4, 64);
    assert_eq!(pipeline.batch_size(), 4);
    assert_eq!(pipeline.socket(), Target::Handle(4));
    assert_eq!(pipeline.staged(), &vec![recv(0), recv(1), recv(2), recv(3)]);
    assert_eq!(states(&pipeline), vec![SlotState::Armed; 4]);
    assert_eq!(pipeline.armed(), 4);
    assert_eq!(pipeline.slot_state(4), None);
    assert_eq!(pipeline.totals(), (0, 0));
    assert_eq!(pipeline.next_step(), Step::Wait);
    let descriptor = pipeline.descriptor(3).expect("tag 3");
    assert_eq!(descriptor.capacity(), 64);
    assert_eq!(descriptor.valid_length(), 0);
    assert!(pipeline.descriptor(4).is_none());
}

#[test]
fn new_receive_pipeline_refused() {
    let dead = RingConfig { queue_depth: 0, no_fork: true, kernel_poll: Some(1) };
    assert_eq!(
        ReceivePipeline::new(dead, 64, Target::Handle(4), Ok(())).err(),
        Some(RingInitError::ZeroDepth)
    );
    let live = RingConfig { queue_depth: 4, no_fork: true, kernel_poll: Some(1) };
    assert_eq!(
        ReceivePipeline::new(live, 64, Target::Handle(4), Err(22)).err(),
        Some(RingInitError::Rejected(22))
    );
}

#[test]
fn four_datagrams_end_to_end() {
    // The sender: batch of 4, buffers of 64 bytes, datagrams of 10 bytes.
    let config = RingConfig { queue_depth: 4, no_fork: true, kernel_poll: None };
    let destination = Endpoint::v4(127, 0, 0, 1, 7200);
    let mut sender = SendPipeline::new(config, 64, Target::Handle(5), destination, Ok(()))
        .expect("the kernel accepted the ring");
    let payload = *b"0123456789";
    for tag in 0usize..4 {
        assert_eq!(sender.fill(tag, &payload), Ok(()));
    }
    assert_eq!(sender.stage_batch(), Ok(4));
    let sent: Vec<CompletionEvent> = (0usize..4).map(|tag| got(tag, 10)).collect();
    let outcomes = sender.complete_batch(Ok(sent)).expect("the cycle completes");
    assert_eq!(
        outcomes,
        (0usize..4).map(|tag| Outcome::Transferred { tag, bytes: 10 }).collect::<Vec<Outcome>>()
    );

    // The receiver: 4 slots armed, 4 completions of 10 bytes each.
    let mut receiver = engine(4, 64);
    assert_eq!(receiver.armed(), 4);
    for tag in 0usize..4 {
        let datagram = sender.descriptor(tag).expect("a descriptor for every tag").payload();
        kernel_fills(&mut receiver, tag, &datagram, sender_address());
    }
    assert_eq!(receiver.next_step(), Step::Wait);
    let arrived: Vec<CompletionEvent> = (0usize..4).map(|tag| got(tag, 10)).collect();
    assert_eq!(receiver.wait(Ok(arrived)), Ok(4));
    assert!(receiver.staged().is_empty());
    assert_eq!(states(&receiver), vec![SlotState::Completed; 4]);
    assert_eq!(receiver.armed(), 0);
    assert_eq!(receiver.next_step(), Step::Drain);

    let arrivals = receiver.drain_pass();
    assert_eq!(
        arrivals,
        (0usize..4)
            .map(|tag| Arrival::Datagram { tag, bytes: 10, peer: Ok(sender_address()) })
            .collect::<Vec<Arrival>>()
    );
    assert_eq!(states(&receiver), vec![SlotState::Armed; 4]);
    assert_eq!(receiver.armed(), 4);
    assert_eq!(receiver.staged(), &vec![recv(0), recv(1), recv(2), recv(3)]);
    assert_eq!(receiver.totals(), (4, 40));
    for tag in 0usize..4 {
        let descriptor = receiver.descriptor(tag).expect("a descriptor for every tag");
        assert_eq!(descriptor.valid_length(), 10);
        assert_eq!(descriptor.payload(), payload.to_vec());
        assert_eq!(descriptor.endpoint(), Some(sender_address()));
    }
    assert_eq!(receiver.next_step(), Step::Wait);
}

#[test]
fn completions_are_matched_by_tag_not_by_position() {
    let mut pipeline = engine(3, 16);
    kernel_fills(&mut pipeline, 2, b"two", Endpoint::v4(10, 0, 0, 2, 2));
    kernel_fills(&mut pipeline, 0, b"zero", Endpoint::v4(10, 0, 0, 0, 1));
    assert_eq!(pipeline.wait(Ok(vec![got(2, 3), got(0, 4)])), Ok(2));
    assert_eq!(
        states(&pipeline),
        vec![SlotState::Completed, SlotState::Armed, SlotState::Completed]
    );
    assert_eq!(pipeline.armed(), 1);
    assert_eq!(
        pipeline.drain_pass(),
        vec![
            Arrival::Datagram { tag: 2, bytes: 3, peer: Ok(Endpoint::v4(10, 0, 0, 2, 2)) },
            Arrival::Datagram { tag: 0, bytes: 4, peer: Ok(Endpoint::v4(10, 0, 0, 0, 1)) },
        ]
    );
    // Re-armed in the order the completions were looked at.
    assert_eq!(pipeline.staged(), &vec![recv(2), recv(0)]);
    assert_eq!(pipeline.descriptor(2).expect("tag 2").payload(), b"two".to_vec());
    assert_eq!(pipeline.descriptor(0).expect("tag 0").payload(), b"zero".to_vec());
    assert_eq!(pipeline.descriptor(1).expect("tag 1").valid_length(), 0);
    assert_eq!(pipeline.totals(), (2, 7));
}

#[test]
fn failed_receive_is_reported_and_rearmed() {
    let mut pipeline = engine(4, 16);
    kernel_fills(&mut pipeline, 0, b"a", sender_address());
    kernel_fills(&mut pipeline, 3, b"dddd", sender_address());
    assert_eq!(pipeline.wait(Ok(vec![got(0, 1), got(1, -105), got(3, 4)])), Ok(3));
    assert_eq!(
        pipeline.drain_pass(),
        vec![
            Arrival::Datagram { tag: 0, bytes: 1, peer: Ok(sender_address()) },
            Arrival::Failed { tag: 1, code: 105 },
            Arrival::Datagram { tag: 3, bytes: 4, peer: Ok(sender_address()) },
        ]
    );
    assert_eq!(states(&pipeline), vec![SlotState::Armed; 4]);
    assert_eq!(pipeline.staged(), &vec![recv(0), recv(1), recv(3)]);
    assert_eq!(pipeline.totals(), (2, 5));
    let failed = pipeline.descriptor(1).expect("tag 1");
    assert_eq!(failed.valid_length(), 0);
    assert_eq!(failed.endpoint(), None);
}

#[test]
fn every_receive_failing_still_rearms_every_slot() {
    let mut pipeline = engine(2, 16);
    assert_eq!(pipeline.wait(Ok(vec![got(1, i32::MIN), got(0, -1)])), Ok(2));
    assert_eq!(
        pipeline.drain_pass(),
        vec![
            Arrival::Failed { tag: 1, code: 2147483648 },
            Arrival::Failed { tag: 0, code: 1 }
        ]
    );
    assert_eq!(pipeline.armed(), 2);
    assert_eq!(pipeline.totals(), (0, 0));
}

#[test]
fn undecodable_peer_keeps_the_payload() {
    let mut pipeline = engine(2, 16);
    // The kernel filled the buffer but left the address block untouched.
    let buffer = pipeline.buffer_mut(0).expect("tag 0");
    buffer[..5].copy_from_slice(b"hello");
    assert_eq!(pipeline.wait(Ok(vec![got(0, 5)])), Ok(1));
    assert_eq!(
        pipeline.drain_pass(),
        vec![Arrival::Datagram {
            tag: 0,
            bytes: 5,
            peer: Err(DecodeError::UnsupportedFamily(0))
        }]
    );
    let descriptor = pipeline.descriptor(0).expect("tag 0");
    assert_eq!(descriptor.payload(), b"hello".to_vec());
    assert_eq!(descriptor.endpoint(), None);
    assert_eq!(pipeline.slot_state(0), Some(SlotState::Armed));
    assert_eq!(pipeline.totals(), (1, 5));
}

#[test]
fn datagram_longer_than_the_buffer_is_cut_to_it() {
    let mut pipeline = engine(1, 8);
    kernel_fills(&mut pipeline, 0, b"12345678", sender_address());
    assert_eq!(pipeline.wait(Ok(vec![got(0, 20)])), Ok(1));
    assert_eq!(
        pipeline.drain_pass(),
        vec![Arrival::Datagram { tag: 0, bytes: 20, peer: Ok(sender_address()) }]
    );
    assert_eq!(pipeline.descriptor(0).expect("tag 0").valid_length(), 8);
    assert_eq!(pipeline.totals(), (1, 20));
}

#[test]
fn stale_datagram_is_forgotten_on_failure() {
    let mut pipeline = engine(1, 8);
    kernel_fills(&mut pipeline, 0, b"first", sender_address());
    assert_eq!(pipeline.wait(Ok(vec![got(0, 5)])), Ok(1));
    assert_eq!(pipeline.drain_pass().len(), 1);
    assert_eq!(pipeline.descriptor(0).expect("tag 0").endpoint(), Some(sender_address()));
    assert_eq!(pipeline.wait(Ok(vec![got(0, -4)])), Ok(1));
    assert_eq!(pipeline.drain_pass(), vec![Arrival::Failed { tag: 0, code: 4 }]);
    let descriptor = pipeline.descriptor(0).expect("tag 0");
    assert_eq!(descriptor.valid_length(), 0);
    assert_eq!(descriptor.endpoint(), None);
}

#[test]
fn drain_pass_with_nothing_visible_changes_nothing() {
    let mut pipeline = engine(3, 16);
    assert!(pipeline.drain_pass().is_empty());
    assert_eq!(pipeline.staged(), &vec![recv(0), recv(1), recv(2)]);
    assert_eq!(states(&pipeline), vec![SlotState::Armed; 3]);
    assert_eq!(pipeline.totals(), (0, 0));
    assert_eq!(pipeline.next_step(), Step::Wait);
}

#[test]
fn keeps_draining_while_completions_are_visible() {
    let mut pipeline = engine(2, 16);
    assert_eq!(pipeline.next_step(), Step::Wait);
    assert_eq!(pipeline.wait(Ok(vec![got(0, 1)])), Ok(1));
    assert_eq!(pipeline.next_step(), Step::Drain);
    assert_eq!(pipeline.drain_pass().len(), 1);
    // More arrived while the pass ran: no blocking wait in between.
    assert_eq!(pipeline.poll(Ok(vec![got(1, 2), got(0, 3)])), Ok(2));
    assert_eq!(pipeline.next_step(), Step::Drain);
    assert_eq!(pipeline.drain_pass().len(), 2);
    // A look that finds nothing sends the engine back to blocking.
    assert_eq!(pipeline.poll(Ok(Vec::new())), Ok(0));
    assert_eq!(pipeline.next_step(), Step::Wait);
    assert_eq!(pipeline.armed(), 2);
    assert_eq!(pipeline.totals(), (3, 6));
}

#[test]
fn wait_owes_one_completion() {
    let mut pipeline = engine(2, 16);
    assert_eq!(
        pipeline.wait(Ok(Vec::new())),
        Err(IoError::Incomplete { expected: 1, observed: 0 })
    );
    assert_eq!(pipeline.wait(Err(4)), Err(IoError::Kernel(4)));
    assert_eq!(pipeline.wait(Ok(vec![got(2, 1)])), Err(IoError::UnknownTag(2)));
    assert_eq!(pipeline.poll(Ok(vec![got(0, 1), got(0, 1)])), Err(IoError::UnknownTag(0)));
    // Nothing changed.
    assert_eq!(pipeline.staged(), &vec![recv(0), recv(1)]);
    assert_eq!(states(&pipeline), vec![SlotState::Armed; 2]);
    assert_eq!(pipeline.next_step(), Step::Wait);
}

#[test]
fn a_slot_completes_once_per_arming() {
    let mut pipeline = engine(2, 16);
    assert_eq!(pipeline.wait(Ok(vec![got(0, 1)])), Ok(1));
    // Slot 0 is completed and not yet re-armed: a second completion is stray.
    assert_eq!(pipeline.poll(Ok(vec![got(0, 1)])), Err(IoError::UnknownTag(0)));
    assert_eq!(pipeline.drain_pass().len(), 1);
    assert_eq!(pipeline.poll(Ok(vec![got(0, 1)])), Ok(1));
}

#[test]
fn kernel_memory_accessors() {
    let mut pipeline = engine(2, 16);
    assert_eq!(pipeline.buffer_mut(0).map(|bytes| bytes.len()), Some(16));
    assert_eq!(pipeline.storage_mut(1).map(|bytes| bytes.len()), Some(128));
    assert!(pipeline.buffer_mut(2).is_none());
    assert!(pipeline.storage_mut(2).is_none());
    pipeline.buffer_mut(1).expect("tag 1")[15] = 0xee;
    assert_eq!(pipeline.descriptor(1).expect("tag 1").buffer()[15], 0xee);
    assert_eq!(pipeline.descriptor(0).expect("tag 0").buffer(), &[0u8; 16][..]);
    assert_eq!(pipeline.armed(), 2);
}

#[test]
fn registering_files_leaves_the_rotation_alone() {
    let mut pipeline = engine(2, 16);
    pipeline.register_fixed_files(vec![4]);
    assert_eq!(pipeline.staged(), &vec![recv(0), recv(1)]);
    assert_eq!(pipeline.armed(), 2);
    assert_eq!(pipeline.wait(Ok(vec![got(1, 0)])), Ok(1));
    assert_eq!(
        pipeline.drain_pass(),
        vec![Arrival::Datagram { tag: 1, bytes: 0, peer: Err(DecodeError::UnsupportedFamily(0)) }]
    );
    assert_eq!(pipeline.totals(), (1, 0));
}

#[test]
fn every_slot_is_armed_before_each_blocking_wait() {
    let mut pipeline = engine(3, 16);
    let replies = vec![
        vec![got(0, 1)],
        vec![got(2, -9), got(1, 4)],
        vec![got(1, 0), got(0, 2), got(2, 3)],
        vec![got(2, 1)],
    ];
    for reply in replies {
        assert_eq!(pipeline.next_step(), Step::Wait);
        assert_eq!(pipeline.armed(), pipeline.batch_size());
        let count = reply.len();
        assert_eq!(pipeline.wait(Ok(reply)), Ok(count));
        assert_eq!(pipeline.armed(), pipeline.batch_size() - count);
        while pipeline.next_step() == Step::Drain {
            assert_eq!(pipeline.drain_pass().len(), count);
            assert_eq!(pipeline.poll(Ok(Vec::new())), Ok(0));
        }
    }
    assert_eq!(pipeline.armed(), 3);
    assert_eq!(pipeline.totals(), (6, 11));
}

#[test]
fn totals_count_every_byte() {
    let mut pipeline = engine(1, 4);
    let mut rounds: u64 = 0;
    while rounds < 3 {
        assert_eq!(pipeline.wait(Ok(vec![got(0, i32::MAX)])), Ok(1));
        assert_eq!(pipeline.drain_pass().len(), 1);
        rounds += 1;
    }
    assert_eq!(pipeline.totals(), (3, 3 * 2147483647));
}
