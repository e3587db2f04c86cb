//! The ring pair, kept as a ledger.
//!
//! A `Ring` records what the application has staged, what it has handed to
//! the kernel and what the kernel has reported back. It makes no system
//! call: the caller flushes the staged operations to the kernel, and tells
//! the ring what the kernel answered. The ring holds the kernel to the
//! protocol: a completion that matches no outstanding operation, or a wait
//! that returned early, is an error and changes nothing.

use vstd::prelude::*;

verus! {

/// What a staged operation asks the kernel to do.
#[derive(Clone, Copy, Debug, PartialEq, Eq, Structural)]
pub enum OpKind {
    SendMsg,
    RecvMsg,
}

/// How an operation names its socket.
#[derive(Clone, Copy, Debug, PartialEq, Eq, Structural)]
pub enum Target {
    /// By raw handle.
    Handle(i32),
    /// By index into the table of registered files.
    Fixed(u32),
}

/// One entry of the submission ring. The tag is the index of the descriptor
/// that the operation reads or fills; the kernel echoes it on completion.
#[derive(Clone, Copy, Debug, PartialEq, Eq, Structural)]
pub struct Operation {
    pub kind: OpKind,
    pub target: Target,
    pub tag: usize,
}

/// One entry of the completion ring: a byte count, or a negated error code.
#[derive(Clone, Copy, Debug, PartialEq, Eq, Structural)]
pub struct CompletionEvent {
    pub tag: usize,
    pub result: i32,
}

/// The ring holds as many outstanding operations as its depth allows.
#[derive(Clone, Copy, Debug, PartialEq, Eq, Structural)]
pub struct QueueFull;

/// Why no ring was built.
#[derive(Clone, Copy, Debug, PartialEq, Eq, Structural)]
pub enum RingInitError {
    /// A ring needs room for at least one operation.
    ZeroDepth,
    /// The depth does not fit the kernel's 32-bit entry count.
    DepthTooLarge,
    /// The kernel refused the configuration, with this error code.
    Rejected(i32),
}

/// Why a flush left the ring as it was.
#[derive(Clone, Copy, Debug, PartialEq, Eq, Structural)]
pub enum IoError {
    /// The system call failed with this error code.
    Kernel(i32),
    /// The kernel reported a completion for a tag with no outstanding operation.
    UnknownTag(usize),
    /// The wait returned before the completions it was owed.
    Incomplete { expected: usize, observed: usize },
}

/// How a ring is to be set up.
#[derive(Clone, Copy, Debug, PartialEq, Eq, Structural)]
pub struct RingConfig {
    /// How many operations may be outstanding at once.
    pub queue_depth: u32,
    /// Keep the ring's memory out of forked children.
    pub no_fork: bool,
    /// Let a kernel thread poll for submissions, sleeping after this many
    /// idle milliseconds.
    pub kernel_poll: Option<u32>,
}

impl RingConfig {
    /// A plain configuration for `batch_size` operations: it must be at
    /// least one and fit the kernel's 32-bit entry count.
    pub fn new(batch_size: usize) -> (result: Result<RingConfig, RingInitError>)
        ensures
            match result {
                Ok(config) => 1 <= batch_size <= u32::MAX && config == (RingConfig {
                    queue_depth: batch_size as u32,
                    no_fork: false,
                    kernel_poll: None,
                }),
                Err(RingInitError::ZeroDepth) => batch_size == 0,
                Err(RingInitError::DepthTooLarge) => batch_size > u32::MAX,
                Err(RingInitError::Rejected(_)) => false,
            },
    {
        if batch_size == 0 {
            Err(RingInitError::ZeroDepth)
        } else if batch_size > 0xffff_ffff {
            Err(RingInitError::DepthTooLarge)
        } else {
            Ok(RingConfig { queue_depth: batch_size as u32, no_fork: false, kernel_poll: None })
        }
    }

    /// The same configuration, with the ring's memory kept out of forked
    /// children.
    pub fn with_no_fork(self) -> (config: RingConfig)
        ensures
            config == (RingConfig { no_fork: true, ..self }),
    {
        RingConfig { no_fork: true, ..self }
    }

    /// The same configuration, with a kernel thread that polls for
    /// submissions and sleeps after `timeout_ms` idle milliseconds.
    pub fn with_kernel_poll(self, timeout_ms: u32) -> (config: RingConfig)
        ensures
            config == (RingConfig { kernel_poll: Some(timeout_ms), ..self }),
    {
        RingConfig { kernel_poll: Some(timeout_ms), ..self }
    }
}

/// Whether a ring comes to be: not with a depth of zero, and not where the
/// kernel refused with an error code.
pub open spec fn build_result(config: RingConfig, setup: Result<(), i32>) -> Result<
    (),
    RingInitError,
> {
    if config.queue_depth == 0 {
        Err(RingInitError::ZeroDepth)
    } else {
        match setup {
            Err(code) => Err(RingInitError::Rejected(code)),
            Ok(()) => Ok(()),
        }
    }
}

/// One operation for each tag below `size`, in order of tag.
pub open spec fn batch(kind: OpKind, target: Target, size: nat) -> Seq<Operation> {
    Seq::new(size, |tag: int| Operation { kind, target, tag: tag as usize })
}

/// What staging a whole batch makes of a ring: all of it, or nothing where
/// the ring has no room for all.
pub open spec fn after_stage_batch(
    ring: RingView,
    kind: OpKind,
    target: Target,
    size: nat,
) -> Result<RingView, QueueFull> {
    if ring.outstanding().len() + size <= ring.depth() {
        Ok(RingView { staged: ring.staged + batch(kind, target, size), ..ring })
    } else {
        Err(QueueFull)
    }
}

/// The state of a ring, as contracts see it.
#[verifier::ext_equal]
pub struct RingView {
    pub config: RingConfig,
    /// The table of registered files.
    pub files: Seq<i32>,
    /// Staged, not yet flushed to the kernel.
    pub staged: Seq<Operation>,
    /// Flushed to the kernel, completion not yet reported.
    pub in_flight: Seq<Operation>,
    /// Reported by the kernel, not yet drained.
    pub visible: Seq<CompletionEvent>,
}

impl RingView {
    /// A ring that has seen no operation.
    pub open spec fn fresh(config: RingConfig) -> RingView {
        RingView {
            config,
            files: Seq::empty(),
            staged: Seq::empty(),
            in_flight: Seq::empty(),
            visible: Seq::empty(),
        }
    }

    /// The operations whose completion the kernel still owes, oldest first.
    pub open spec fn outstanding(self) -> Seq<Operation> {
        self.in_flight + self.staged
    }

    /// How many operations may be outstanding at once.
    pub open spec fn depth(self) -> nat {
        self.config.queue_depth as nat
    }

    /// Never more outstanding operations than the depth, which is at least one.
    pub open spec fn valid(self) -> bool {
        &&& self.depth() >= 1
        &&& self.outstanding().len() <= self.depth()
    }
}

/// The index of the first operation that carries `tag`, or the length of
/// `ops` if none does.
pub open spec fn position(ops: Seq<Operation>, tag: usize) -> int
    decreases ops.len(),
{
    if ops.len() == 0 {
        0
    } else if ops[0].tag == tag {
        0
    } else {
        1 + position(ops.drop_first(), tag)
    }
}

/// No two operations carry the same tag.
pub open spec fn distinct_tags(ops: Seq<Operation>) -> bool {
    forall|i: int, j: int| 0 <= i < j < ops.len() ==> ops[i].tag != ops[j].tag
}

/// Some operation carries `tag`.
pub open spec fn has_tag(ops: Seq<Operation>, tag: usize) -> bool {
    exists|j: int| 0 <= j < ops.len() && (#[trigger] ops[j]).tag == tag
}

/// Some event carries `tag`.
pub open spec fn has_event(events: Seq<CompletionEvent>, tag: usize) -> bool {
    exists|i: int| 0 <= i < events.len() && (#[trigger] events[i]).tag == tag
}

/// No two events carry the same tag.
pub open spec fn distinct_events(events: Seq<CompletionEvent>) -> bool {
    forall|i: int, j: int| 0 <= i < j < events.len() ==> events[i].tag != events[j].tag
}

/// Takes out of `outstanding`, for each event in turn, the first operation
/// with the event's tag. Fails with the first tag that matches nothing.
pub open spec fn retire(outstanding: Seq<Operation>, events: Seq<CompletionEvent>) -> Result<
    Seq<Operation>,
    usize,
>
    decreases events.len(),
{
    if events.len() == 0 {
        Ok(outstanding)
    } else {
        let at = position(outstanding, events[0].tag);
        if at == outstanding.len() {
            Err(events[0].tag)
        } else {
            retire(outstanding.remove(at), events.drop_first())
        }
    }
}

/// What staging `op` makes of a ring.
pub open spec fn after_stage(ring: RingView, op: Operation) -> Result<RingView, QueueFull> {
    if ring.outstanding().len() < ring.depth() {
        Ok(RingView { staged: ring.staged.push(op), ..ring })
    } else {
        Err(QueueFull)
    }
}

/// How many completions a wait for `min_complete` is owed: no more than
/// there are operations outstanding.
pub open spec fn owed(ring: RingView, min_complete: nat) -> nat {
    if min_complete < ring.outstanding().len() {
        min_complete
    } else {
        ring.outstanding().len()
    }
}

/// What a flush makes of a ring, given the kernel's answer: the error code of
/// a failed call, or the completions that became visible.
pub open spec fn after_wait(
    ring: RingView,
    min_complete: nat,
    answer: Result<Seq<CompletionEvent>, i32>,
) -> Result<RingView, IoError> {
    match answer {
        Err(code) => Err(IoError::Kernel(code)),
        Ok(events) => match retire(ring.outstanding(), events) {
            Err(tag) => Err(IoError::UnknownTag(tag)),
            Ok(rest) => if events.len() < owed(ring, min_complete) {
                Err(
                    IoError::Incomplete {
                        expected: owed(ring, min_complete) as usize,
                        observed: events.len() as usize,
                    },
                )
            } else {
                Ok(
                    RingView {
                        staged: Seq::empty(),
                        in_flight: rest,
                        visible: ring.visible + events,
                        ..ring
                    },
                )
            },
        },
    }
}

/// The kernel's answer as contracts see it.
pub open spec fn answer_view(reply: Result<Vec<CompletionEvent>, i32>) -> Result<
    Seq<CompletionEvent>,
    i32,
> {
    match reply {
        Ok(events) => Ok(events@),
        Err(code) => Err(code),
    }
}

/// `position` finds the first operation with the tag, if there is one.
pub proof fn lemma_position(ops: Seq<Operation>, tag: usize)
    ensures
        0 <= position(ops, tag) <= ops.len(),
        position(ops, tag) < ops.len() ==> ops[position(ops, tag)].tag == tag,
        forall|j: int| 0 <= j < position(ops, tag) ==> ops[j].tag != tag,
        position(ops, tag) < ops.len() <==> has_tag(ops, tag),
    decreases ops.len(),
{
    if ops.len() == 0 {
    } else if ops[0].tag == tag {
    } else {
        let tail = ops.drop_first();
        lemma_position(tail, tag);
        let at = position(tail, tag);
        assert forall|j: int| 0 <= j < 1 + at implies ops[j].tag != tag by {
            if j > 0 {
                assert(tail[j - 1] == ops[j]);
            }
        }
        if at < tail.len() {
            assert(tail[at] == ops[at + 1]);
        }
        if has_tag(ops, tag) {
            let j = choose|j: int| 0 <= j < ops.len() && (#[trigger] ops[j]).tag == tag;
            assert(tail[j - 1] == ops[j]);
        }
    }
}

/// An index with the tag, below which no operation has it, is the position.
proof fn lemma_position_is(ops: Seq<Operation>, tag: usize, at: int)
    requires
        0 <= at <= ops.len(),
        forall|j: int| 0 <= j < at ==> ops[j].tag != tag,
        at < ops.len() ==> ops[at].tag == tag,
    ensures
        position(ops, tag) == at,
{
    lemma_position(ops, tag);
}

/// Retiring events in two runs is retiring them in one.
proof fn lemma_retire_step(outstanding: Seq<Operation>, events: Seq<CompletionEvent>, k: int)
    requires
        0 <= k < events.len(),
    ensures
        retire(outstanding, events.skip(k)) == ({
            let at = position(outstanding, events[k].tag);
            if at == outstanding.len() {
                Err::<Seq<Operation>, usize>(events[k].tag)
            } else {
                retire(outstanding.remove(at), events.skip(k + 1))
            }
        }),
{
    assert(events.skip(k)[0] == events[k]);
    assert(events.skip(k).drop_first() =~= events.skip(k + 1));
}

/// Completions match outstanding operations one for one. Where no two
/// outstanding operations share a tag and the kernel's events all retire,
/// no two events share a tag, each event's tag is that of an outstanding
/// operation, and what remains outstanding is what was, less the operations
/// whose tags the events carry.
pub proof fn lemma_completions_match(outstanding: Seq<Operation>, events: Seq<CompletionEvent>)
    requires
        distinct_tags(outstanding),
        retire(outstanding, events) is Ok,
    ensures
        events.len() <= outstanding.len(),
        retire(outstanding, events)->Ok_0.len() == outstanding.len() - events.len(),
        distinct_tags(retire(outstanding, events)->Ok_0),
        forall|i: int| 0 <= i < events.len() ==> has_tag(outstanding, #[trigger] events[i].tag),
        distinct_events(events),
        forall|j: int|
            0 <= j < retire(outstanding, events)->Ok_0.len() ==> outstanding.contains(
                #[trigger] retire(outstanding, events)->Ok_0[j],
            ),
        forall|tag: usize|
            has_tag(retire(outstanding, events)->Ok_0, tag) <==> has_tag(outstanding, tag)
                && !has_event(events, tag),
    decreases events.len(),
{
    if events.len() == 0 {
    } else {
        let first = events[0].tag;
        let at = position(outstanding, first);
        lemma_position(outstanding, first);
        let fewer = outstanding.remove(at);
        let later = events.drop_first();
        assert forall|i: int| 0 <= i < fewer.len() implies fewer[i] == outstanding[if i < at {
            i
        } else {
            i + 1
        }] by {}
        assert(distinct_tags(fewer));
        lemma_completions_match(fewer, later);
        assert forall|tag: usize| has_tag(fewer, tag) implies has_tag(outstanding, tag) && tag
            != first by {
            let j = choose|j: int| 0 <= j < fewer.len() && (#[trigger] fewer[j]).tag == tag;
            let src = if j < at {
                j
            } else {
                j + 1
            };
            assert(outstanding[src].tag == tag);
        }
        assert forall|i: int| 0 <= i < events.len() implies has_tag(
            outstanding,
            #[trigger] events[i].tag,
        ) by {
            if i > 0 {
                assert(later[i - 1] == events[i]);
                assert(has_tag(fewer, later[i - 1].tag));
            }
        }
        let rest = retire(outstanding, events)->Ok_0;
        assert forall|i: int, j: int| 0 <= i < j < events.len() implies events[i].tag
            != events[j].tag by {
            assert(later[j - 1] == events[j]);
            assert(has_tag(fewer, later[j - 1].tag));
            if i > 0 {
                assert(later[i - 1] == events[i]);
            }
        }
        assert forall|j: int| 0 <= j < rest.len() implies outstanding.contains(
            #[trigger] rest[j],
        ) by {
            assert(fewer.contains(rest[j]));
            let k = choose|k: int| 0 <= k < fewer.len() && fewer[k] == rest[j];
            let src = if k < at {
                k
            } else {
                k + 1
            };
            assert(outstanding[src] == rest[j]);
        }
        assert forall|tag: usize| has_tag(rest, tag) <==> has_tag(outstanding, tag) && !has_event(
            events,
            tag,
        ) by {
            if has_event(events, tag) && tag != first {
                let i = choose|i: int| 0 <= i < events.len() && (#[trigger] events[i]).tag == tag;
                assert(later[i - 1] == events[i]);
                assert(has_event(later, tag));
            }
            if has_event(later, tag) {
                let i = choose|i: int| 0 <= i < later.len() && (#[trigger] later[i]).tag == tag;
                assert(events[i + 1] == later[i]);
                assert(has_event(events, tag));
            }
            if tag == first {
                assert(events[0].tag == tag);
                assert(has_event(events, tag));
            }
            if has_tag(outstanding, tag) && tag != first {
                let j = choose|j: int|
                    0 <= j < outstanding.len() && (#[trigger] outstanding[j]).tag == tag;
                let dst = if j < at {
                    j
                } else {
                    j - 1
                };
                assert(fewer[dst] == outstanding[j]);
                assert(has_tag(fewer, tag));
            }
        }
    }
}

/// A batch has one operation per tag: no two share one, and each tag is
/// below the batch's size.
pub proof fn lemma_batch_tags(kind: OpKind, target: Target, size: nat)
    requires
        size <= usize::MAX,
    ensures
        distinct_tags(batch(kind, target, size)),
        forall|tag: usize| has_tag(batch(kind, target, size), tag) <==> tag < size,
{
    let ops = batch(kind, target, size);
    assert forall|tag: usize| tag < size implies has_tag(ops, tag) by {
        assert(ops[tag as int].tag == tag);
    }
}

/// A ring pair of fixed depth.
pub struct Ring {
    config: RingConfig,
    files: Vec<i32>,
    staged: Vec<Operation>,
    in_flight: Vec<Operation>,
    visible: Vec<CompletionEvent>,
}

impl View for Ring {
    type V = RingView;

    closed spec fn view(&self) -> RingView {
        RingView {
            config: self.config,
            files: self.files@,
            staged: self.staged@,
            in_flight: self.in_flight@,
            visible: self.visible@,
        }
    }
}

/// The index of the first operation in `ops` that carries `tag`.
fn find(ops: &Vec<Operation>, tag: usize) -> (at: usize)
    ensures
        at == position(ops@, tag),
{
    let mut at: usize = 0;
    while at < ops.len() && ops[at].tag != tag
        invariant
            at <= ops.len(),
            forall|j: int| 0 <= j < at ==> ops@[j].tag != tag,
        decreases ops.len() - at,
    {
        at += 1;
    }
    proof {
        lemma_position_is(ops@, tag, at as int);
    }
    at
}

impl Ring {
    /// What every ring that `build` made satisfies, whatever was done with it.
    pub open spec fn wf(&self) -> bool {
        self@.valid()
    }

    /// Records a ring that the kernel was asked to set up for `config`.
    /// `setup` is what the kernel said: `Ok`, or the error code with which it
    /// refused.
    pub fn build(config: RingConfig, setup: Result<(), i32>) -> (result: Result<
        Ring,
        RingInitError,
    >)
        ensures
            match result {
                Ok(ring) => build_result(config, setup) is Ok && ring.wf() && ring@
                    == RingView::fresh(config),
                Err(error) => build_result(config, setup) == Err::<(), RingInitError>(error),
            },
    {
        if config.queue_depth == 0 {
            return Err(RingInitError::ZeroDepth);
        }
        match setup {
            Err(code) => Err(RingInitError::Rejected(code)),
            Ok(()) => {
                let ring = Ring {
                    config,
                    files: Vec::new(),
                    staged: Vec::new(),
                    in_flight: Vec::new(),
                    visible: Vec::new(),
                };
                assert(ring@ =~= RingView::fresh(config));
                Ok(ring)
            },
        }
    }

    /// The configuration the ring was built with.
    pub fn config(&self) -> (config: RingConfig)
        ensures
            config == self@.config,
    {
        self.config
    }

    /// How many operations may be outstanding at once.
    pub fn depth(&self) -> (depth: usize)
        ensures
            depth == self@.depth(),
    {
        self.config.queue_depth as usize
    }

    /// How many operations are staged or in the kernel's hands.
    pub fn outstanding(&self) -> (count: usize)
        requires
            self.wf(),
        ensures
            count == self@.outstanding().len(),
    {
        self.staged.len() + self.in_flight.len()
    }

    /// The operations staged since the last flush, oldest first: what the
    /// caller must hand to the kernel at the next flush.
    pub fn staged(&self) -> (ops: &Vec<Operation>)
        ensures
            ops@ == self@.staged,
    {
        &self.staged
    }

    /// The completions that are visible and not yet drained, oldest first.
    pub fn visible(&self) -> (events: &Vec<CompletionEvent>)
        ensures
            events@ == self@.visible,
    {
        &self.visible
    }

    /// Appends one operation to the staging area. Fails, and changes
    /// nothing, when as many operations are outstanding as the depth allows.
    pub fn stage(&mut self, op: Operation) -> (result: Result<(), QueueFull>)
        requires
            old(self).wf(),
        ensures
            final(self).wf(),
            match result {
                Ok(()) => after_stage(old(self)@, op) == Ok::<RingView, QueueFull>(final(self)@),
                Err(_) => after_stage(old(self)@, op) is Err && final(self)@ == old(self)@,
            },
    {
        if self.staged.len() + self.in_flight.len() < self.config.queue_depth as usize {
            self.staged.push(op);
            Ok(())
        } else {
            Err(QueueFull)
        }
    }

    /// Stages one operation for each tag below `size`, in order of tag.
    /// Where the ring has no room for all of them it stages none.
    pub fn stage_batch(&mut self, kind: OpKind, target: Target, size: usize) -> (result: Result<
        (),
        QueueFull,
    >)
        requires
            old(self).wf(),
        ensures
            final(self).wf(),
            match result {
                Ok(()) => after_stage_batch(old(self)@, kind, target, size as nat) == Ok::<
                    RingView,
                    QueueFull,
                >(final(self)@),
                Err(_) => after_stage_batch(old(self)@, kind, target, size as nat) is Err
                    && final(self)@ == old(self)@,
            },
    {
        let room = self.config.queue_depth as usize - (self.staged.len() + self.in_flight.len());
        if size > room {
            return Err(QueueFull);
        }
        let mut tag: usize = 0;
        while tag < size
            invariant
                tag <= size,
                self.wf(),
                self@ == (RingView {
                    staged: old(self)@.staged + batch(kind, target, tag as nat),
                    ..old(self)@
                }),
                old(self)@.outstanding().len() + size <= old(self)@.depth(),
            decreases size - tag,
        {
            let staged = self.stage(Operation { kind, target, tag });
            assert(staged is Ok);
            tag += 1;
            assert(self@.staged =~= old(self)@.staged + batch(kind, target, tag as nat));
        }
        Ok(())
    }

    /// Flushes the staging area to the kernel and takes in what the kernel
    /// answered: `reply` is the error code of a failed call, or the
    /// completions that became visible during it. Returns how many became
    /// visible. The wait is owed `min_complete` completions, or one for each
    /// outstanding operation if those are fewer. On any error the ring is
    /// left as it was.
    pub fn submit_and_wait(
        &mut self,
        min_complete: usize,
        reply: Result<Vec<CompletionEvent>, i32>,
    ) -> (result: Result<usize, IoError>)
        requires
            old(self).wf(),
        ensures
            final(self).wf(),
            match result {
                Ok(count) => {
                    &&& after_wait(old(self)@, min_complete as nat, answer_view(reply)) == Ok::<
                        RingView,
                        IoError,
                    >(final(self)@)
                    &&& reply matches Ok(events) && count == events@.len()
                },
                Err(error) => {
                    &&& after_wait(old(self)@, min_complete as nat, answer_view(reply)) == Err::<
                        RingView,
                        IoError,
                    >(error)
                    &&& final(self)@ == old(self)@
                },
            },
    {
        let ghost before = self@;
        let ghost all = before.outstanding();
        let ghost answer = answer_view(reply);
        let mut events = match reply {
            Err(code) => {
                return Err(IoError::Kernel(code));
            },
            Ok(events) => events,
        };
        let ghost reported = events@;
        let mut rest: Vec<Operation> = Vec::new();
        let mut i: usize = 0;
        while i < self.in_flight.len()
            invariant
                i <= self.in_flight@.len(),
                rest@ == self.in_flight@.take(i as int),
            decreases self.in_flight@.len() - i,
        {
            rest.push(self.in_flight[i]);
            i += 1;
            assert(self.in_flight@.take(i as int) =~= self.in_flight@.take(i - 1).push(
                self.in_flight@[i - 1],
            ));
        }
        assert(self.in_flight@.take(i as int) =~= self.in_flight@);
        let mut j: usize = 0;
        while j < self.staged.len()
            invariant
                j <= self.staged@.len(),
                rest@ == self.in_flight@ + self.staged@.take(j as int),
            decreases self.staged@.len() - j,
        {
            rest.push(self.staged[j]);
            j += 1;
            assert(self.staged@.take(j as int) =~= self.staged@.take(j - 1).push(
                self.staged@[j - 1],
            ));
            assert(rest@ =~= self.in_flight@ + self.staged@.take(j as int));
        }
        assert(self.staged@.take(j as int) =~= self.staged@);
        let total = rest.len();
        let mut k: usize = 0;
        assert(rest@ == all);
        assert(events@.skip(0) =~= events@);
        while k < events.len()
            invariant
                self@ == before,
                before == old(self)@,
                self.wf(),
                answer == answer_view(reply),
                answer == Ok::<Seq<CompletionEvent>, i32>(reported),
                events@ == reported,
                all == before.outstanding(),
                k <= events@.len(),
                rest@.len() + k == total,
                total == all.len(),
                retire(all, events@) == retire(rest@, events@.skip(k as int)),
            decreases events@.len() - k,
        {
            let tag = events[k].tag;
            let at = find(&rest, tag);
            proof {
                lemma_retire_step(rest@, events@, k as int);
                lemma_position(rest@, tag);
            }
            if at == rest.len() {
                return Err(IoError::UnknownTag(tag));
            }
            rest.remove(at);
            k += 1;
        }
        assert(events@.skip(k as int).len() == 0);
        let count = events.len();
        let due = if min_complete < total {
            min_complete
        } else {
            total
        };
        if count < due {
            return Err(IoError::Incomplete { expected: due, observed: count });
        }
        self.staged = Vec::new();
        self.in_flight = rest;
        self.visible.append(&mut events);
        proof {
            assert(self@ =~= RingView {
                staged: Seq::empty(),
                in_flight: rest@,
                visible: before.visible + reported,
                ..before
            });
        }
        Ok(count)
    }

    /// Takes every visible completion off the completion ring, oldest first.
    /// With none visible it returns none, and the ring is as it was.
    pub fn drain(&mut self) -> (events: Vec<CompletionEvent>)
        requires
            old(self).wf(),
        ensures
            final(self).wf(),
            events@ == old(self)@.visible,
            final(self)@ == (RingView { visible: Seq::empty(), ..old(self)@ }),
            old(self)@.visible.len() == 0 ==> final(self)@ == old(self)@,
    {
        let mut events: Vec<CompletionEvent> = Vec::new();
        events.append(&mut self.visible);
        assert(self@ =~= RingView { visible: Seq::empty(), ..old(self)@ });
        assert(old(self)@.visible.len() == 0 ==> self@ =~= old(self)@);
        events
    }

    /// Replaces the table of registered files. Operations may then name a
    /// socket by its index in `fds`.
    pub fn register_fixed_files(&mut self, fds: Vec<i32>)
        requires
            old(self).wf(),
        ensures
            final(self).wf(),
            final(self)@ == (RingView { files: fds@, ..old(self)@ }),
    {
        self.files = fds;
    }

    /// The handle registered under `index`, if any.
    pub fn fixed_file(&self, index: u32) -> (handle: Option<i32>)
        ensures
            handle == if index < self@.files.len() {
                Some(self@.files[index as int])
            } else {
                None
            },
    {
        if (index as usize) < self.files.len() {
            Some(self.files[index as usize])
        } else {
            None
        }
    }
}

} // verus!
