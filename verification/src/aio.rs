//! The native-AIO backend: every range becomes a request descriptor, the
//! descriptors are handed to the kernel queue in as many batches as the kernel
//! takes them, and each completion that the kernel reports is matched to its
//! descriptor again.
//!
//! The calls into the kernel are the driver's part. This module decides what
//! to submit, how many completions to wait for, and what to make of each
//! report.

use crate::descriptor::{describe, descriptors_for, Descriptor};
use crate::error::ReadError;
use crate::layout::{
    all_readable, gather, lemma_filled_slots_are_gather, lemma_pread, lemma_slot_bounds,
    lemma_slot_in_buffer, lemma_slots_disjoint, place, pread, range_bytes, range_readable, slot,
    slot_end, slot_start, total_len,
};
use crate::read_ranges::{Dropper, ReadRangeBuf};
use vstd::prelude::*;
use vstd::set_lib::{lemma_int_range, lemma_len_subset, set_int_range};

verus! {

/// The number of completions that the kernel queue of a thread is set up to
/// hold.
pub const QUEUE_DEPTH: u32 = 256;

/// The kernel's report on one request: the handle of its descriptor and the
/// result, which is the number of bytes read or, below zero, an error code
/// with its sign turned.
#[derive(Clone, Copy, Debug, PartialEq, Eq, Structural)]
pub struct Completion {
    pub handle: u64,
    pub res: i64,
}

/// What the driver of a native-AIO read has to do next.
#[derive(Clone, Copy, Debug, PartialEq, Eq, Structural)]
pub enum AioAction {
    /// Offer the `count` descriptors from `first` on to the kernel queue, and
    /// report how many it took with `on_submitted`, or the error of the call
    /// with `on_error`.
    Submit { first: usize, count: usize },
    /// Wait for `count` completions and report those that came with
    /// `on_completions`, or the error of the call with `on_error`.
    Wait { count: usize },
    /// Every request has completed: take the request with `into_inner`.
    Done,
    /// The request was given up for this reason.
    Failed(ReadError),
}

/// The error code that a result below zero stands for. A result too far
/// below zero to be an error code gives the greatest code.
pub open spec fn errno_of(res: i64) -> i32 {
    if -(i32::MAX as int) <= res < 0 {
        (-res) as i32
    } else {
        i32::MAX
    }
}

/// What the driver reports to a native-AIO read.
pub enum AioEvent {
    /// The kernel took this many of the descriptors offered.
    Submitted(nat),
    /// The kernel reported these completions, having written to this memory.
    Completions(Seq<Completion>, Seq<u8>),
    /// A call into the kernel failed with this error code.
    Error(i32),
}

/// The state of a native-AIO read, as mathematics.
pub struct AioView {
    /// The file that the descriptors name.
    pub fd: i32,
    /// The ranges of the request.
    pub ranges: Seq<(u64, usize)>,
    /// How many descriptors the kernel has taken: those before this index.
    pub submitted: nat,
    /// The handles whose requests have completed.
    pub completed: Set<int>,
    /// The bytes that the buffer holds.
    pub bytes: Seq<u8>,
    /// Why the request was given up, if it was.
    pub failed: Option<ReadError>,
}

impl AioView {
    /// What holds of every state that a read can reach.
    pub open spec fn wf(self) -> bool {
        &&& total_len(self.ranges) <= isize::MAX
        &&& self.submitted <= self.ranges.len()
        &&& self.completed.finite()
        &&& self.completed.len() <= self.submitted
        &&& forall|h: int| self.completed.contains(h) ==> 0 <= h < self.submitted
        &&& self.failed is None ==> self.bytes.len() == total_len(self.ranges)
        &&& self.failed is Some ==> self.bytes.len() == 0
    }

    /// The state in which a read of `ranges` from the file `fd` starts: the
    /// buffer has its full length and nothing in it is output yet.
    pub open spec fn start(fd: i32, ranges: Seq<(u64, usize)>) -> AioView {
        AioView {
            fd,
            ranges,
            submitted: 0,
            completed: Set::empty(),
            bytes: Seq::new(total_len(ranges), |p: int| 0u8),
            failed: None,
        }
    }

    /// The request of `handle` was taken by the kernel and has not completed.
    pub open spec fn outstanding(self, handle: u64) -> bool {
        handle < self.submitted && !self.completed.contains(handle as int)
    }

    /// What the driver has to do in this state: wait while requests are
    /// outstanding, then offer what the kernel has not taken yet.
    pub open spec fn action(self) -> AioAction {
        match self.failed {
            Some(e) => AioAction::Failed(e),
            None => if self.completed.len() < self.submitted {
                AioAction::Wait { count: (self.submitted - self.completed.len()) as usize }
            } else if self.submitted < self.ranges.len() {
                AioAction::Submit {
                    first: self.submitted as usize,
                    count: (self.ranges.len() - self.submitted) as usize,
                }
            } else {
                AioAction::Done
            },
        }
    }

    /// The state after the request was given up because of `e`: nothing of
    /// the buffer stays visible.
    pub open spec fn fail(self, e: ReadError) -> AioView {
        AioView { bytes: Seq::empty(), failed: Some(e), ..self }
    }

    /// The state after the kernel took `accepted` of the descriptors that it
    /// had not taken yet. It may take fewer than were offered, or none. A
    /// kernel that claims more than there are has left the protocol. After a
    /// failure nothing changes.
    pub open spec fn on_submitted(self, accepted: nat) -> AioView {
        if self.failed is Some {
            self
        } else if accepted > self.ranges.len() - self.submitted {
            self.fail(ReadError::UnknownCompletion)
        } else {
            AioView { submitted: self.submitted + accepted, ..self }
        }
    }

    /// What speaks against the completion `ev`, if anything: that its request
    /// is not outstanding, that the kernel reports an error, or that it read
    /// another number of bytes than the range asked for. `filled_len` is the
    /// length of the memory that the kernel wrote to; a slot that it does not
    /// hold is short too.
    pub open spec fn objection(self, ev: Completion, filled_len: nat) -> Option<ReadError> {
        if !self.outstanding(ev.handle) {
            Some(ReadError::UnknownCompletion)
        } else if ev.res < 0 {
            Some(ReadError::Os(errno_of(ev.res)))
        } else if ev.res != self.ranges[ev.handle as int].1 {
            Some(ReadError::ShortRead)
        } else if slot_end(self.ranges, ev.handle as int) > filled_len {
            Some(ReadError::ShortRead)
        } else {
            None
        }
    }

    /// The state after the completion `ev` was taken: its request has
    /// completed, and its slot holds what `filled` holds there.
    pub open spec fn accept(self, ev: Completion, filled: Seq<u8>) -> AioView {
        AioView {
            completed: self.completed.insert(ev.handle as int),
            bytes: place(
                self.bytes,
                slot_start(self.ranges, ev.handle as int) as int,
                slot(filled, self.ranges, ev.handle as int),
            ),
            ..self
        }
    }

    /// The state after the kernel reported `events`, having written to the
    /// memory `filled`. The completions are taken in the order of the report;
    /// the first one that something speaks against gives the request up.
    /// After a failure nothing changes.
    pub open spec fn on_completions(self, events: Seq<Completion>, filled: Seq<u8>) -> AioView
        decreases events.len(),
    {
        if self.failed is Some || events.len() == 0 {
            self
        } else {
            match self.objection(events[0], filled.len()) {
                Some(e) => self.fail(e),
                None => self.accept(events[0], filled).on_completions(
                    events.drop_first(),
                    filled,
                ),
            }
        }
    }

    /// The state after a call into the kernel failed with the error code
    /// `errno`. After a failure nothing changes: the first error stands.
    pub open spec fn on_error(self, errno: i32) -> AioView {
        if self.failed is Some {
            self
        } else {
            self.fail(ReadError::Os(errno))
        }
    }

    /// The buffer that the request comes back with: the output once every
    /// request has completed, and nothing before that or after a failure.
    pub open spec fn output(self) -> Seq<u8> {
        if self.action() == AioAction::Done {
            self.bytes
        } else {
            Seq::empty()
        }
    }

    /// The state after the driver reported `event`.
    pub open spec fn step(self, event: AioEvent) -> AioView {
        match event {
            AioEvent::Submitted(accepted) => self.on_submitted(accepted),
            AioEvent::Completions(events, filled) => self.on_completions(events, filled),
            AioEvent::Error(errno) => self.on_error(errno),
        }
    }

    /// The state after the driver reported `events`, one after the other.
    pub open spec fn after(self, events: Seq<AioEvent>) -> AioView
        decreases events.len(),
    {
        if events.len() == 0 {
            self
        } else {
            self.step(events[0]).after(events.drop_first())
        }
    }

    /// `event` is something that a kernel which serves reads from `file` may
    /// report: a result that is no error is the number of bytes that a
    /// positional read of the range delivers, and where that is all of the
    /// range, the slot of the request in the memory holds the bytes of the
    /// range. Which descriptors it takes, when and in what order it
    /// completes them, and what errors it reports, is left to it.
    pub open spec fn served(self, file: Seq<u8>, event: AioEvent) -> bool {
        match event {
            AioEvent::Completions(events, filled) => self.served_report(file, events, filled),
            _ => true,
        }
    }

    /// Each completion of the report `events` that is of a request of this
    /// read is something that a kernel which serves reads from `file` may
    /// report.
    pub open spec fn served_report(
        self,
        file: Seq<u8>,
        events: Seq<Completion>,
        filled: Seq<u8>,
    ) -> bool {
        forall|k: int|
            0 <= k < events.len() && (#[trigger] events[k]).handle < self.ranges.len()
                ==> self.served_one(file, events[k], filled)
    }

    /// The completion `ev` of a request of this read is something that a
    /// kernel which serves reads from `file` may report.
    pub open spec fn served_one(self, file: Seq<u8>, ev: Completion, filled: Seq<u8>) -> bool {
        let range = self.ranges[ev.handle as int];
        &&& ev.res >= 0 ==> ev.res == pread(file, range).len()
        &&& ev.res == range.1 ==> slot(filled, self.ranges, ev.handle as int) == range_bytes(
            file,
            range,
        )
    }

    /// Each of `events` is something that a kernel which serves reads from
    /// `file` may report.
    pub open spec fn served_all(self, file: Seq<u8>, events: Seq<AioEvent>) -> bool
        decreases events.len(),
    {
        events.len() == 0 || (self.served(file, events[0]) && self.step(events[0]).served_all(
            file,
            events.drop_first(),
        ))
    }

    /// Every request that has completed read a range that `file` holds in
    /// full, and its slot holds what `file` holds in that range.
    pub open spec fn agrees(self, file: Seq<u8>) -> bool {
        self.failed is None ==> forall|h: int| #[trigger]
            self.completed.contains(h) ==> range_readable(file.len(), self.ranges[h]) && slot(
                self.bytes,
                self.ranges,
                h,
            ) == range_bytes(file, self.ranges[h])
    }
}

/// The handles that `flags` marks.
spec fn marked(flags: Seq<bool>) -> Set<int> {
    Set::new(|h: int| 0 <= h < flags.len() && flags[h])
}

proof fn lemma_marked_none(flags: Seq<bool>)
    requires
        forall|h: int| 0 <= h < flags.len() ==> !flags[h],
    ensures
        marked(flags) == Set::<int>::empty(),
{
    assert(marked(flags) =~= Set::<int>::empty());
}

proof fn lemma_marked_one_more(flags: Seq<bool>, h: int)
    requires
        0 <= h < flags.len(),
    ensures
        marked(flags.update(h, true)) == marked(flags).insert(h),
{
    assert(marked(flags.update(h, true)) =~= marked(flags).insert(h));
}

/// While a request is outstanding, fewer have completed than were submitted.
proof fn lemma_outstanding_leaves_room(state: AioView, handle: u64)
    requires
        state.wf(),
        state.outstanding(handle),
    ensures
        state.completed.len() < state.submitted,
        state.completed.insert(handle as int).len() == state.completed.len() + 1,
{
    let more = state.completed.insert(handle as int);
    lemma_int_range(0, state.submitted as int);
    assert(more.subset_of(set_int_range(0, state.submitted as int)));
    lemma_len_subset(more, set_int_range(0, state.submitted as int));
}

/// Taking a completion that nothing speaks against keeps the state valid.
proof fn lemma_accept_wf(state: AioView, ev: Completion, filled: Seq<u8>)
    requires
        state.wf(),
        state.failed is None,
        state.objection(ev, filled.len()) is None,
    ensures
        state.accept(ev, filled).wf(),
        state.accept(ev, filled).failed is None,
{
    lemma_outstanding_leaves_room(state, ev.handle);
}

/// A report of completions keeps the state valid.
pub proof fn lemma_aio_completions_wf(state: AioView, events: Seq<Completion>, filled: Seq<u8>)
    requires
        state.wf(),
    ensures
        state.on_completions(events, filled).wf(),
    decreases events.len(),
{
    if state.failed is None && events.len() > 0 {
        if state.objection(events[0], filled.len()) is None {
            lemma_accept_wf(state, events[0], filled);
            lemma_aio_completions_wf(state.accept(events[0], filled), events.drop_first(), filled);
        }
    }
}

/// A native-AIO read in progress.
pub struct AioRead {
    guard: Dropper,
    fd: i32,
    descriptors: Vec<Descriptor>,
    submitted: usize,
    completed: Vec<bool>,
    pending: usize,
    failed: Option<ReadError>,
}

impl View for AioRead {
    type V = AioView;

    closed spec fn view(&self) -> AioView {
        AioView {
            fd: self.fd,
            ranges: self.guard.0.ranges@,
            submitted: self.submitted as nat,
            completed: marked(self.completed@),
            bytes: self.guard.0.buf@,
            failed: self.failed,
        }
    }
}

/// The state that a read is in while it has not been given up.
spec fn state_of(
    fd: i32,
    guard: Dropper,
    submitted: usize,
    flags: Seq<bool>,
) -> AioView {
    AioView {
        fd,
        ranges: guard.0.ranges@,
        submitted: submitted as nat,
        completed: marked(flags),
        bytes: guard.0.buf@,
        failed: None,
    }
}

/// Copies the `len` bytes from `at` on from `filled` to the same place in
/// `buf`.
fn copy_slot(buf: &mut Vec<u8>, at: usize, len: usize, filled: &[u8])
    requires
        at + len <= old(buf)@.len(),
        at + len <= filled@.len(),
    ensures
        final(buf)@ == place(old(buf)@, at as int, filled@.subrange(at as int, at + len)),
{
    let ghost before = buf@;
    let size: usize = buf.len();
    let mut p: usize = 0;
    while p < len
        invariant
            0 <= p <= len,
            at + len <= before.len(),
            at + len <= filled@.len(),
            size == before.len(),
            buf@ == place(before, at as int, filled@.subrange(at as int, at + p)),
        decreases len - p,
    {
        let byte: u8 = filled[at + p];
        buf.set(at + p, byte);
        p = p + 1;
        proof {
            assert(buf@ =~= place(before, at as int, filled@.subrange(at as int, at + p)));
        }
    }
}

/// The error code that a result below zero stands for.
fn errno_from(res: i64) -> (errno: i32)
    ensures
        errno == errno_of(res),
{
    if res < 0 && res >= -2147483647 {
        (-res) as i32
    } else {
        i32::MAX
    }
}

impl AioRead {
    #[verifier::type_invariant]
    spec fn inv(self) -> bool {
        &&& self@.wf()
        &&& self.descriptors@ == descriptors_for(
            self.fd,
            self.guard.0.ranges@,
            0,
            self.guard.0.ranges@.len() as int,
        )
        &&& self.completed@.len() == self.guard.0.ranges@.len()
        &&& self.pending + marked(self.completed@).len() == self.submitted
    }

    /// Starts the read of a request from the file `fd`: builds one descriptor
    /// per range and gives the buffer its full length. What the buffer held
    /// before is dropped.
    pub fn start(fd: i32, buf: ReadRangeBuf) -> (r: (AioRead, AioAction))
        requires
            total_len(buf.ranges@) <= isize::MAX,
        ensures
            r.0@ == AioView::start(fd, buf.ranges@),
            r.0@.wf(),
            r.1 == r.0@.action(),
    {
        let total: usize = match buf.output_len() {
            Some(n) => n,
            None => 0,
        };
        let mut guard = Dropper::new(buf);
        guard.0.buf.resize(total, 0u8);
        let count: usize = guard.0.ranges.len();
        proof {
            lemma_slot_bounds(guard.0.ranges@);
        }
        let descriptors = describe(fd, &guard.0.ranges, 0, count, 0);
        let mut completed: Vec<bool> = Vec::new();
        let mut i: usize = 0;
        while i < count
            invariant
                0 <= i <= count,
                completed@.len() == i,
                forall|h: int| 0 <= h < i ==> !completed@[h],
            decreases count - i,
        {
            completed.push(false);
            i = i + 1;
        }
        proof {
            lemma_marked_none(completed@);
            assert(guard.0.buf@ =~= Seq::new(total_len(guard.0.ranges@), |p: int| 0u8));
        }
        let op = AioRead {
            guard,
            fd,
            descriptors,
            submitted: 0,
            completed,
            pending: 0,
            failed: None,
        };
        let action = op.action();
        (op, action)
    }

    /// The descriptors of the request, one per range and in range order.
    pub fn descriptors(&self) -> (list: &Vec<Descriptor>)
        ensures
            list@ == descriptors_for(self@.fd, self@.ranges, 0, self@.ranges.len() as int),
    {
        proof {
            use_type_invariant(self);
        }
        &self.descriptors
    }

    /// What the driver has to do next.
    pub fn action(&self) -> (action: AioAction)
        ensures
            action == self@.action(),
            self@.wf(),
    {
        proof {
            use_type_invariant(self);
        }
        match self.failed {
            Some(e) => AioAction::Failed(e),
            None => {
                if self.pending > 0 {
                    AioAction::Wait { count: self.pending }
                } else if self.submitted < self.guard.0.ranges.len() {
                    AioAction::Submit {
                        first: self.submitted,
                        count: self.guard.0.ranges.len() - self.submitted,
                    }
                } else {
                    AioAction::Done
                }
            },
        }
    }

    /// Takes the number of descriptors that the kernel took of those offered.
    pub fn on_submitted(self, accepted: usize) -> (r: (AioRead, AioAction))
        ensures
            r.0@ == self@.on_submitted(accepted as nat),
            r.0@.wf(),
            r.1 == r.0@.action(),
    {
        proof {
            use_type_invariant(&self);
        }
        let AioRead { guard, fd, descriptors, submitted, completed, pending, failed } = self;
        let op = if failed.is_some() {
            AioRead { guard, fd, descriptors, submitted, completed, pending, failed }
        } else if accepted > guard.0.ranges.len() - submitted {
            AioRead {
                guard: Dropper(guard.release()),
                fd,
                descriptors,
                submitted,
                completed,
                pending,
                failed: Some(ReadError::UnknownCompletion),
            }
        } else {
            AioRead {
                guard,
                fd,
                descriptors,
                submitted: submitted + accepted,
                completed,
                pending: pending + accepted,
                failed,
            }
        };
        proof {
            assert(op@.bytes =~= self@.on_submitted(accepted as nat).bytes);
        }
        let action = op.action();
        (op, action)
    }

    /// Takes the completions that the kernel reported. `filled` is the memory
    /// that the kernel wrote to: as long as the output, with every slot where
    /// the descriptors put it.
    pub fn on_completions(self, events: &[Completion], filled: &[u8]) -> (r: (AioRead, AioAction))
        ensures
            r.0@ == self@.on_completions(events@, filled@),
            r.0@.wf(),
            r.1 == r.0@.action(),
    {
        proof {
            use_type_invariant(&self);
            lemma_aio_completions_wf(self@, events@, filled@);
        }
        let ghost goal = self@.on_completions(events@, filled@);
        let ghost ranges = self@.ranges;
        let AioRead { guard, fd, descriptors, submitted, completed, pending, failed } = self;
        if failed.is_some() {
            let op = AioRead { guard, fd, descriptors, submitted, completed, pending, failed };
            let action = op.action();
            return (op, action);
        }
        let mut guard = guard;
        let mut completed = completed;
        let mut pending = pending;
        let mut objection: Option<ReadError> = None;
        let mut k: usize = 0;
        proof {
            assert(events@.skip(0) =~= events@);
        }
        while k < events.len() && objection.is_none()
            invariant
                0 <= k <= events@.len(),
                guard.0.ranges@ == ranges,
                descriptors@ == descriptors_for(fd, ranges, 0, ranges.len() as int),
                completed@.len() == ranges.len(),
                pending + marked(completed@).len() == submitted,
                state_of(fd, guard, submitted, completed@).wf(),
                match objection {
                    None => goal == state_of(fd, guard, submitted, completed@).on_completions(
                        events@.skip(k as int),
                        filled@,
                    ),
                    Some(e) => goal == state_of(fd, guard, submitted, completed@).fail(e),
                },
            decreases events@.len() - k + (if objection is None { 1int } else { 0int }),
        {
            let ev: Completion = events[k];
            let ghost now = state_of(fd, guard, submitted, completed@);
            proof {
                assert(events@.skip(k as int)[0] == ev);
                assert(events@.skip(k as int).drop_first() =~= events@.skip(k + 1));
            }
            if ev.handle >= submitted as u64 {
                objection = Some(ReadError::UnknownCompletion);
            } else if completed[ev.handle as usize] {
                objection = Some(ReadError::UnknownCompletion);
            } else {
                let handle: usize = ev.handle as usize;
                let descriptor: Descriptor = descriptors[handle];
                proof {
                    lemma_slot_in_buffer(ranges, handle as int);
                    assert(now.outstanding(ev.handle));
                }
                if ev.res < 0 {
                    objection = Some(ReadError::Os(errno_from(ev.res)));
                } else if ev.res as u64 != descriptor.len as u64 {
                    objection = Some(ReadError::ShortRead);
                } else if descriptor.len > filled.len() || descriptor.dest > filled.len()
                    - descriptor.len {
                    objection = Some(ReadError::ShortRead);
                } else {
                    proof {
                        lemma_accept_wf(now, ev, filled@);
                        lemma_outstanding_leaves_room(now, ev.handle);
                        lemma_marked_one_more(completed@, handle as int);
                    }
                    copy_slot(&mut guard.0.buf, descriptor.dest, descriptor.len, filled);
                    completed.set(handle, true);
                    pending = pending - 1;
                    k = k + 1;
                }
            }
        }
        let op = match objection {
            Some(e) => AioRead {
                guard: Dropper(guard.release()),
                fd,
                descriptors,
                submitted,
                completed,
                pending,
                failed: Some(e),
            },
            None => AioRead { guard, fd, descriptors, submitted, completed, pending, failed: None },
        };
        proof {
            assert(op@.bytes =~= goal.bytes);
        }
        let action = op.action();
        (op, action)
    }

    /// Takes the error code with which a call into the kernel failed.
    pub fn on_error(self, errno: i32) -> (r: (AioRead, AioAction))
        ensures
            r.0@ == self@.on_error(errno),
            r.0@.wf(),
            r.1 == r.0@.action(),
    {
        proof {
            use_type_invariant(&self);
        }
        let AioRead { guard, fd, descriptors, submitted, completed, pending, failed } = self;
        let op = if failed.is_some() {
            AioRead { guard, fd, descriptors, submitted, completed, pending, failed }
        } else {
            AioRead {
                guard: Dropper(guard.release()),
                fd,
                descriptors,
                submitted,
                completed,
                pending,
                failed: Some(ReadError::Os(errno)),
            }
        };
        proof {
            assert(op@.bytes =~= self@.on_error(errno).bytes);
        }
        let action = op.action();
        (op, action)
    }

    /// Ends the read and hands the request back. Its buffer is the whole
    /// output if every request has completed, and empty otherwise: no byte of
    /// a read that failed or was left unfinished is ever handed out.
    pub fn into_inner(self) -> (request: ReadRangeBuf)
        ensures
            request.ranges@ == self@.ranges,
            request.buf@ == self@.output(),
            request.buf@.len() == 0 || request.buf@.len() == total_len(self@.ranges),
    {
        proof {
            use_type_invariant(&self);
        }
        let AioRead { guard, submitted, pending, failed, .. } = self;
        if failed.is_none() && pending == 0 && submitted >= guard.0.ranges.len() {
            guard.into_inner()
        } else {
            let request = guard.release();
            assert(request.buf@ =~= Seq::<u8>::empty());
            request
        }
    }
}

/// A report of completions that a kernel which serves reads from `file` may
/// make keeps the buffer in agreement with the file.
pub proof fn lemma_aio_completions_agree(
    state: AioView,
    file: Seq<u8>,
    events: Seq<Completion>,
    filled: Seq<u8>,
)
    requires
        state.wf(),
        state.agrees(file),
        state.served_report(file, events, filled),
    ensures
        state.on_completions(events, filled).wf(),
        state.on_completions(events, filled).agrees(file),
    decreases events.len(),
{
    lemma_aio_completions_wf(state, events, filled);
    if state.failed is None && events.len() > 0 {
        let ev = events[0];
        if state.objection(ev, filled.len()) is None {
            let taken = state.accept(ev, filled);
            let h = ev.handle as int;
            lemma_accept_wf(state, ev, filled);
            lemma_slot_in_buffer(state.ranges, h);
            assert(state.outstanding(ev.handle));
            assert(state.served_one(file, ev, filled));
            lemma_pread(file, state.ranges[h]);
            assert forall|g: int| #[trigger] taken.completed.contains(g) implies range_readable(
                file.len(),
                taken.ranges[g],
            ) && slot(taken.bytes, taken.ranges, g) == range_bytes(file, taken.ranges[g]) by {
                lemma_slot_in_buffer(state.ranges, g);
                if g == h {
                    assert(slot(taken.bytes, taken.ranges, g) =~= slot(filled, state.ranges, h));
                } else {
                    assert(state.completed.contains(g));
                    if g < h {
                        lemma_slots_disjoint(state.ranges, g, h);
                    } else {
                        lemma_slots_disjoint(state.ranges, h, g);
                    }
                    assert(slot(taken.bytes, taken.ranges, g) =~= slot(
                        state.bytes,
                        state.ranges,
                        g,
                    ));
                }
            }
            let rest = events.drop_first();
            assert forall|k: int|
                0 <= k < rest.len() && (#[trigger] rest[k]).handle
                    < taken.ranges.len() implies taken.served_one(file, rest[k], filled) by {
                assert(rest[k] == events[k + 1]);
                assert(state.served_one(file, events[k + 1], filled));
            }
            lemma_aio_completions_agree(taken, file, rest, filled);
        }
    }
}

/// Whatever the driver reports, the read stays valid and keeps its request.
pub proof fn lemma_aio_after_wf(state: AioView, events: Seq<AioEvent>)
    requires
        state.wf(),
    ensures
        state.after(events).wf(),
        state.after(events).ranges == state.ranges,
    decreases events.len(),
{
    if events.len() > 0 {
        match events[0] {
            AioEvent::Completions(reported, filled) => {
                lemma_aio_completions_wf(state, reported, filled);
                lemma_aio_completions_keep(state, reported, filled);
            },
            _ => {},
        }
        lemma_aio_after_wf(state.step(events[0]), events.drop_first());
    }
}

/// Whatever a kernel that serves reads from `file` reports, in whatever
/// batches it takes the descriptors and in whatever order it completes them,
/// the read stays valid and its buffer keeps agreeing with `file`.
pub proof fn lemma_aio_served_agrees(state: AioView, file: Seq<u8>, events: Seq<AioEvent>)
    requires
        state.wf(),
        state.agrees(file),
        state.served_all(file, events),
    ensures
        state.after(events).wf(),
        state.after(events).agrees(file),
        state.after(events).ranges == state.ranges,
    decreases events.len(),
{
    if events.len() > 0 {
        match events[0] {
            AioEvent::Completions(reported, filled) => {
                lemma_aio_completions_agree(state, file, reported, filled);
                lemma_aio_completions_keep(state, reported, filled);
            },
            _ => {},
        }
        lemma_aio_served_agrees(state.step(events[0]), file, events.drop_first());
    }
}

/// A report of completions changes neither the request nor the file that is
/// read.
proof fn lemma_aio_completions_keep(state: AioView, events: Seq<Completion>, filled: Seq<u8>)
    ensures
        state.on_completions(events, filled).ranges == state.ranges,
        state.on_completions(events, filled).fd == state.fd,
    decreases events.len(),
{
    if state.failed is None && events.len() > 0 {
        if state.objection(events[0], filled.len()) is None {
            let taken = state.accept(events[0], filled);
            lemma_aio_completions_keep(taken, events.drop_first(), filled);
        }
    }
}

/// A native-AIO read that has nothing left to do and agrees with `file` has
/// the output of the request in its buffer, in whatever order the kernel
/// served the requests.
pub proof fn lemma_aio_done_is_gather(state: AioView, file: Seq<u8>)
    requires
        state.wf(),
        state.agrees(file),
        state.action() == AioAction::Done,
    ensures
        state.output() == gather(file, state.ranges),
        all_readable(file.len(), state.ranges),
{
    let n = state.ranges.len() as int;
    lemma_int_range(0, n);
    vstd::set_lib::lemma_subset_equality(state.completed, set_int_range(0, n));
    assert forall|i: int| 0 <= i < n implies #[trigger] slot(state.bytes, state.ranges, i)
        == range_bytes(file, state.ranges[i]) by {
        assert(set_int_range(0, n).contains(i));
        assert(state.completed.contains(i));
    }
    assert forall|i: int| 0 <= i < n implies range_readable(
        file.len(),
        #[trigger] state.ranges[i],
    ) by {
        assert(set_int_range(0, n).contains(i));
        assert(state.completed.contains(i));
    }
    lemma_filled_slots_are_gather(file, state.ranges, state.bytes);
}

} // verus!
