//! The list-I/O backend: the ranges are handed to the kernel in batches of a
//! fixed greatest size, each batch by one call that returns when all of its
//! requests have completed, and the result of every request is looked at.
//!
//! The calls into the kernel are the driver's part. This module builds the
//! control blocks of each batch and decides what to make of its results.

use crate::descriptor::{describe, descriptors_for, Descriptor};
use crate::error::ReadError;
use crate::layout::{
    all_readable, gather, lemma_gather_bounds, lemma_gather_step, lemma_pread, lemma_slot_bounds,
    lemma_slot_in_buffer, lemma_slot_monotone, lemma_slot_step, pread, range_bytes,
    range_readable, slot, slot_start, total_len,
};
use crate::read_ranges::{Dropper, ReadRangeBuf};
use vstd::prelude::*;

verus! {

/// The greatest number of requests that one call hands to the kernel.
pub const MAX_REQUESTS: usize = 1;

/// The error codes of the platform that the rules of this backend name.
#[derive(Clone, Copy, Debug, PartialEq, Eq, Structural)]
pub struct ErrnoCodes {
    /// A resource is not available for now.
    pub again: i32,
    /// The call was interrupted.
    pub intr: i32,
    /// Input or output failed.
    pub io: i32,
}

/// `libc::EAGAIN`, the platform's code for a resource that is not available
/// for now. Nothing is claimed of its value.
#[verifier::external_body]
fn errno_again() -> (code: i32) {
    libc::EAGAIN
}

/// `libc::EINTR`, the platform's code for an interrupted call. Nothing is
/// claimed of its value.
#[verifier::external_body]
fn errno_intr() -> (code: i32) {
    libc::EINTR
}

/// `libc::EIO`, the platform's code for failed input or output. Nothing is
/// claimed of its value.
#[verifier::external_body]
fn errno_io() -> (code: i32) {
    libc::EIO
}

/// What the kernel says of one request of a batch: what the request returned,
/// which is the number of bytes read or a number below zero, and the error
/// code that belongs to a return below zero.
#[derive(Clone, Copy, Debug, PartialEq, Eq, Structural)]
pub struct ItemStatus {
    pub returned: isize,
    pub errno: i32,
}

/// What the driver of a list-I/O read has to do next.
#[derive(Clone, Copy, Debug, PartialEq, Eq, Structural)]
pub enum LioAction {
    /// Hand the control blocks of the `count` ranges from `first` on to the
    /// kernel in one call that waits for them all, and report with
    /// `on_batch`.
    Submit { first: usize, count: usize },
    /// Every batch has completed: take the request with `into_inner`.
    Done,
    /// The request was given up for this reason.
    Failed(ReadError),
}

/// What the driver reports of one batch.
pub struct LioBatch {
    /// What the call that handed the batch over returned.
    pub ret: i32,
    /// The error code that the call left.
    pub errno: i32,
    /// The status of each request of the batch.
    pub items: Seq<ItemStatus>,
    /// The memory that the kernel wrote to.
    pub filled: Seq<u8>,
}

/// The state of a list-I/O read, as mathematics.
pub struct LioView {
    /// The file that the control blocks name.
    pub fd: i32,
    /// The ranges of the request.
    pub ranges: Seq<(u64, usize)>,
    /// The greatest number of requests in a batch.
    pub batch: nat,
    /// The error codes of the platform.
    pub codes: ErrnoCodes,
    /// How many ranges have been read: those of the batches that completed.
    pub done: nat,
    /// The bytes that the buffer holds.
    pub bytes: Seq<u8>,
    /// Why the request was given up, if it was.
    pub failed: Option<ReadError>,
}

impl LioView {
    /// What holds of every state that a read can reach.
    pub open spec fn wf(self) -> bool {
        &&& total_len(self.ranges) <= isize::MAX
        &&& self.batch >= 1
        &&& self.done <= self.ranges.len()
        &&& self.failed is None ==> self.bytes.len() == slot_start(self.ranges, self.done as int)
        &&& self.failed is Some ==> self.bytes.len() == 0
    }

    /// The state in which a read of `ranges` from the file `fd` starts.
    pub open spec fn start(
        fd: i32,
        ranges: Seq<(u64, usize)>,
        batch: nat,
        codes: ErrnoCodes,
    ) -> LioView {
        LioView { fd, ranges, batch, codes, done: 0, bytes: Seq::empty(), failed: None }
    }

    /// The number of ranges in the batch that is due: as many as are left, up
    /// to the greatest size of a batch, and none after a failure.
    pub open spec fn due(self) -> nat {
        if self.failed is Some || self.done >= self.ranges.len() {
            0
        } else if self.ranges.len() - self.done < self.batch {
            (self.ranges.len() - self.done) as nat
        } else {
            self.batch
        }
    }

    /// What the driver has to do in this state.
    pub open spec fn action(self) -> LioAction {
        match self.failed {
            Some(e) => LioAction::Failed(e),
            None => if self.done < self.ranges.len() {
                LioAction::Submit { first: self.done as usize, count: self.due() as usize }
            } else {
                LioAction::Done
            },
        }
    }

    /// The state after the request was given up because of `e`: nothing of
    /// the buffer stays visible.
    pub open spec fn fail(self, e: ReadError) -> LioView {
        LioView { bytes: Seq::empty(), failed: Some(e), ..self }
    }

    /// The call that hands a batch over failed with a code that ends the
    /// request at once.
    pub open spec fn fatal(self, ret: i32, errno: i32) -> bool {
        ret != 0 && (errno == self.codes.again || errno == self.codes.intr || errno
            == self.codes.io)
    }

    /// What speaks against the request `idx` of the batch that is due, if
    /// anything: that it returned an error, which is passed on, or another
    /// number of bytes than its range asked for, which is an I/O error. A
    /// request without a status has not been served.
    pub open spec fn item_objection(self, items: Seq<ItemStatus>, idx: int) -> Option<ReadError> {
        if idx >= items.len() {
            Some(ReadError::Os(self.codes.io))
        } else if items[idx].returned < 0 {
            Some(ReadError::Os(items[idx].errno))
        } else if items[idx].returned != self.ranges[self.done + idx].1 {
            Some(ReadError::Os(self.codes.io))
        } else {
            None
        }
    }

    /// What speaks against the first request from `from` on against which
    /// anything speaks.
    pub open spec fn items_objection(self, items: Seq<ItemStatus>, from: int) -> Option<ReadError>
        decreases self.due() - from,
    {
        if from >= self.due() {
            None
        } else if self.item_objection(items, from) is Some {
            self.item_objection(items, from)
        } else {
            self.items_objection(items, from + 1)
        }
    }

    /// What speaks against the batch that is due, if anything. A call that
    /// failed with a code that ends the request at once comes first; then the
    /// requests of the batch, in their order; then any other code of a call
    /// that failed; and last a memory that does not hold the slots of the
    /// batch.
    pub open spec fn objection(
        self,
        ret: i32,
        errno: i32,
        items: Seq<ItemStatus>,
        filled_len: nat,
    ) -> Option<ReadError> {
        if self.fatal(ret, errno) {
            Some(ReadError::Os(errno))
        } else if self.items_objection(items, 0) is Some {
            self.items_objection(items, 0)
        } else if ret != 0 && errno != 0 {
            Some(ReadError::Os(errno))
        } else if slot_start(self.ranges, (self.done + self.due()) as int) > filled_len {
            Some(ReadError::Os(self.codes.io))
        } else {
            None
        }
    }

    /// The state after the call for the batch that is due returned `ret` and,
    /// where that is not zero, left the error code `errno`; `items` holds the
    /// status of each request of the batch, and `filled` is the memory that
    /// the kernel wrote to. A batch that nothing speaks against is appended
    /// to the buffer. Where no batch is due, nothing changes.
    pub open spec fn on_batch(
        self,
        ret: i32,
        errno: i32,
        items: Seq<ItemStatus>,
        filled: Seq<u8>,
    ) -> LioView {
        if self.due() == 0 {
            self
        } else {
            match self.objection(ret, errno, items, filled.len()) {
                Some(e) => self.fail(e),
                None => LioView {
                    done: self.done + self.due(),
                    bytes: self.bytes + filled.subrange(
                        slot_start(self.ranges, self.done as int) as int,
                        slot_start(self.ranges, (self.done + self.due()) as int) as int,
                    ),
                    ..self
                },
            }
        }
    }

    /// The buffer that the request comes back with: the output once every
    /// batch has completed, and nothing before that or after a failure.
    pub open spec fn output(self) -> Seq<u8> {
        if self.action() == LioAction::Done {
            self.bytes
        } else {
            Seq::empty()
        }
    }

    /// The state after the driver reported `batch`.
    pub open spec fn step(self, batch: LioBatch) -> LioView {
        self.on_batch(batch.ret, batch.errno, batch.items, batch.filled)
    }

    /// The state after the driver reported `batches`, one after the other.
    pub open spec fn after(self, batches: Seq<LioBatch>) -> LioView
        decreases batches.len(),
    {
        if batches.len() == 0 {
            self
        } else {
            self.step(batches[0]).after(batches.drop_first())
        }
    }

    /// `batch` is something that a kernel which serves reads from `file` may
    /// report in this state: what a request of the batch that is due
    /// returned, if it is no error, is the number of bytes that a positional
    /// read of its range delivers, and where that is all of the range, the
    /// slot of the request in the memory holds the bytes of the range.
    pub open spec fn served(self, file: Seq<u8>, batch: LioBatch) -> bool {
        forall|idx: int|
            0 <= idx < self.due() && idx < batch.items.len() ==> self.served_one(
                file,
                #[trigger] batch.items[idx],
                batch.filled,
                self.done + idx,
            )
    }

    /// The status `item` of the request for range `i` is something that a
    /// kernel which serves reads from `file` may report.
    pub open spec fn served_one(
        self,
        file: Seq<u8>,
        item: ItemStatus,
        filled: Seq<u8>,
        i: int,
    ) -> bool {
        &&& item.returned >= 0 ==> item.returned == pread(file, self.ranges[i]).len()
        &&& item.returned == self.ranges[i].1 ==> slot(filled, self.ranges, i) == range_bytes(
            file,
            self.ranges[i],
        )
    }

    /// Each of `batches` is something that a kernel which serves reads from
    /// `file` may report in the state that the batches before it led to.
    pub open spec fn served_all(self, file: Seq<u8>, batches: Seq<LioBatch>) -> bool
        decreases batches.len(),
    {
        batches.len() == 0 || (self.served(file, batches[0]) && self.step(
            batches[0],
        ).served_all(file, batches.drop_first()))
    }

    /// `file` holds every byte of the ranges read so far, and the buffer
    /// holds what `file` holds in them.
    pub open spec fn agrees(self, file: Seq<u8>) -> bool {
        self.failed is None ==> all_readable(file.len(), self.ranges.take(self.done as int))
            && self.bytes == gather(file, self.ranges.take(self.done as int))
    }
}

/// A list-I/O read in progress.
pub struct LioRead {
    guard: Dropper,
    fd: i32,
    batch: usize,
    codes: ErrnoCodes,
    done: usize,
    failed: Option<ReadError>,
}

impl View for LioRead {
    type V = LioView;

    closed spec fn view(&self) -> LioView {
        LioView {
            fd: self.fd,
            ranges: self.guard.0.ranges@,
            batch: self.batch as nat,
            codes: self.codes,
            done: self.done as nat,
            bytes: self.guard.0.buf@,
            failed: self.failed,
        }
    }
}

impl LioRead {
    #[verifier::type_invariant]
    spec fn inv(self) -> bool {
        self@.wf()
    }

    /// Starts the read of a request from the file `fd`, in batches of at most
    /// `max_requests` ranges. What the buffer held before is dropped.
    pub fn start(fd: i32, buf: ReadRangeBuf, max_requests: usize) -> (r: (LioRead, LioAction))
        requires
            total_len(buf.ranges@) <= isize::MAX,
            max_requests >= 1,
        ensures
            r.0@ == LioView::start(fd, buf.ranges@, max_requests as nat, r.0@.codes),
            r.0@.wf(),
            r.1 == r.0@.action(),
    {
        let guard = Dropper::new(buf);
        let codes = ErrnoCodes { again: errno_again(), intr: errno_intr(), io: errno_io() };
        proof {
            lemma_slot_bounds(guard.0.ranges@);
            assert(guard.0.buf@ =~= Seq::<u8>::empty());
        }
        let op = LioRead {
            guard,
            fd,
            batch: max_requests,
            codes,
            done: 0,
            failed: None,
        };
        let action = op.action();
        (op, action)
    }

    /// The number of ranges in the batch that is due.
    fn due(&self) -> (count: usize)
        ensures
            count == self@.due(),
            self@.wf(),
    {
        proof {
            use_type_invariant(self);
        }
        if self.failed.is_some() || self.done >= self.guard.0.ranges.len() {
            0
        } else if self.guard.0.ranges.len() - self.done < self.batch {
            self.guard.0.ranges.len() - self.done
        } else {
            self.batch
        }
    }

    /// What the driver has to do next.
    pub fn action(&self) -> (action: LioAction)
        ensures
            action == self@.action(),
            self@.wf(),
    {
        proof {
            use_type_invariant(self);
        }
        match self.failed {
            Some(e) => LioAction::Failed(e),
            None => {
                if self.done < self.guard.0.ranges.len() {
                    LioAction::Submit { first: self.done, count: self.due() }
                } else {
                    LioAction::Done
                }
            },
        }
    }

    /// The error codes of the platform, by which the results of a batch are
    /// judged.
    pub fn codes(&self) -> (codes: ErrnoCodes)
        ensures
            codes == self@.codes,
    {
        self.codes
    }

    /// Builds the control blocks of the batch that is due, one per range and
    /// in range order. Where no batch is due there is none.
    pub fn control_blocks(&self) -> (list: Vec<Descriptor>)
        ensures
            list@ == descriptors_for(
                self@.fd,
                self@.ranges,
                self@.done as int,
                self@.due() as int,
            ),
    {
        let count = self.due();
        if count == 0 {
            let list: Vec<Descriptor> = Vec::new();
            proof {
                assert(list@ =~= descriptors_for(self@.fd, self@.ranges, self@.done as int, 0));
            }
            list
        } else {
            describe(self.fd, &self.guard.0.ranges, self.done, count, self.guard.0.buf.len())
        }
    }

    /// Takes the results of the batch that is due: what the call returned,
    /// the error code it left, the status of each request, and the memory
    /// that the kernel wrote to, which is as long as the output, with every
    /// slot where the control blocks put it.
    pub fn on_batch(self, ret: i32, errno: i32, items: &[ItemStatus], filled: &[u8]) -> (r: (
        LioRead,
        LioAction,
    ))
        ensures
            r.0@ == self@.on_batch(ret, errno, items@, filled@),
            r.0@.wf(),
            r.1 == r.0@.action(),
    {
        let count = self.due();
        let ghost before = self@;
        let LioRead { guard, fd, batch, codes, done, failed } = self;
        if count == 0 {
            let op = LioRead { guard, fd, batch, codes, done, failed };
            let action = op.action();
            return (op, action);
        }
        let mut objection: Option<ReadError> = None;
        let total: usize = guard.0.ranges.len();
        let start: usize = guard.0.buf.len();
        let mut end: usize = start;
        if ret != 0 && (errno == codes.again || errno == codes.intr || errno == codes.io) {
            objection = Some(ReadError::Os(errno));
        } else {
            let mut idx: usize = 0;
            while idx < count && objection.is_none()
                invariant
                    0 <= idx <= count,
                    count == before.due(),
                    before.wf(),
                    before.failed is None,
                    before.ranges == guard.0.ranges@,
                    before.done == done,
                    before.codes == codes,
                    done + count <= before.ranges.len(),
                    total == before.ranges.len(),
                    end == slot_start(before.ranges, done + idx),
                    match objection {
                        None => before.items_objection(items@, 0) == before.items_objection(
                            items@,
                            idx as int,
                        ),
                        Some(e) => before.items_objection(items@, 0) == Some(e),
                    },
                decreases count - idx + (if objection is None { 1int } else { 0int }),
            {
                let len: usize = guard.0.ranges[done + idx].1;
                proof {
                    lemma_slot_step(before.ranges, done + idx);
                    lemma_slot_in_buffer(before.ranges, done + idx);
                }
                if idx >= items.len() {
                    objection = Some(ReadError::Os(codes.io));
                } else if items[idx].returned < 0 {
                    objection = Some(ReadError::Os(items[idx].errno));
                } else if items[idx].returned as usize != len {
                    objection = Some(ReadError::Os(codes.io));
                } else {
                    end = end + len;
                    idx = idx + 1;
                }
            }
            if objection.is_none() {
                if ret != 0 && errno != 0 {
                    objection = Some(ReadError::Os(errno));
                } else if end > filled.len() {
                    objection = Some(ReadError::Os(codes.io));
                }
            }
        }
        let op = match objection {
            Some(e) => LioRead {
                guard: Dropper(guard.release()),
                fd,
                batch,
                codes,
                done,
                failed: Some(e),
            },
            None => {
                let mut guard = guard;
                let ghost held = guard.0.buf@;
                proof {
                    lemma_slot_monotone(before.ranges, done as int, done + count);
                }
                let piece = vstd::slice::slice_subrange(filled, start, end);
                guard.0.buf.extend_from_slice(piece);
                proof {
                    assert(guard.0.buf@ =~= held + piece@);
                }
                LioRead {
                    guard,
                    fd,
                    batch,
                    codes,
                    done: done + count,
                    failed: None,
                }
            },
        };
        proof {
            assert(op@.bytes =~= before.on_batch(ret, errno, items@, filled@).bytes);
        }
        let action = op.action();
        (op, action)
    }

    /// Ends the read and hands the request back. Its buffer is the whole
    /// output if every batch has completed, and empty otherwise: no byte of a
    /// read that failed or was left unfinished is ever handed out.
    pub fn into_inner(self) -> (request: ReadRangeBuf)
        ensures
            request.ranges@ == self@.ranges,
            request.buf@ == self@.output(),
            request.buf@.len() == 0 || request.buf@.len() == total_len(self@.ranges),
    {
        proof {
            use_type_invariant(&self);
            lemma_slot_bounds(self@.ranges);
        }
        let LioRead { guard, done, failed, .. } = self;
        if failed.is_none() && done >= guard.0.ranges.len() {
            guard.into_inner()
        } else {
            let request = guard.release();
            assert(request.buf@ =~= Seq::<u8>::empty());
            request
        }
    }
}

/// The bytes of the slots from range `a` up to range `b`, where each of them
/// holds what `file` holds in its range, are what gathering the ranges up to
/// `b` adds to gathering those up to `a`.
proof fn lemma_slots_extend_gather(
    file: Seq<u8>,
    ranges: Seq<(u64, usize)>,
    filled: Seq<u8>,
    a: int,
    b: int,
)
    requires
        0 <= a <= b <= ranges.len(),
        slot_start(ranges, b) <= filled.len(),
        forall|i: int|
            a <= i < b ==> #[trigger] slot(filled, ranges, i) == range_bytes(file, ranges[i]),
    ensures
        slot_start(ranges, a) <= slot_start(ranges, b),
        gather(file, ranges.take(a)) + filled.subrange(
            slot_start(ranges, a) as int,
            slot_start(ranges, b) as int,
        ) == gather(file, ranges.take(b)),
    decreases b - a,
{
    lemma_slot_monotone(ranges, a, b);
    let from = slot_start(ranges, a) as int;
    if a == b {
        assert(gather(file, ranges.take(a)) + filled.subrange(from, from) =~= gather(
            file,
            ranges.take(a),
        ));
    } else {
        lemma_slot_monotone(ranges, b - 1, b);
        lemma_slots_extend_gather(file, ranges, filled, a, b - 1);
        lemma_slot_step(ranges, b - 1);
        lemma_gather_step(file, ranges, b - 1);
        lemma_slot_monotone(ranges, a, b - 1);
        let cut = slot_start(ranges, b - 1) as int;
        let to = slot_start(ranges, b) as int;
        assert(slot(filled, ranges, b - 1) == range_bytes(file, ranges[b - 1]));
        assert(filled.subrange(from, to) =~= filled.subrange(from, cut) + filled.subrange(
            cut,
            to,
        ));
        assert(gather(file, ranges.take(a)) + (filled.subrange(from, cut) + filled.subrange(
            cut,
            to,
        )) =~= (gather(file, ranges.take(a)) + filled.subrange(from, cut)) + filled.subrange(
            cut,
            to,
        ));
    }
}

/// Whatever the driver reports, the read stays valid and keeps its request.
pub proof fn lemma_lio_after_wf(state: LioView, batches: Seq<LioBatch>)
    requires
        state.wf(),
    ensures
        state.after(batches).wf(),
        state.after(batches).ranges == state.ranges,
    decreases batches.len(),
{
    if batches.len() > 0 {
        lemma_slot_monotone(state.ranges, state.done as int, (state.done + state.due()) as int);
        lemma_lio_after_wf(state.step(batches[0]), batches.drop_first());
    }
}

/// Where nothing speaks against the requests of a batch from `from` on,
/// nothing speaks against any one of them.
proof fn lemma_items_all_served(state: LioView, items: Seq<ItemStatus>, from: int, idx: int)
    requires
        0 <= from <= idx < state.due(),
        state.items_objection(items, from) is None,
    ensures
        state.item_objection(items, idx) is None,
    decreases idx - from,
{
    if from < idx {
        lemma_items_all_served(state, items, from + 1, idx);
    }
}

/// A batch that a kernel which serves reads from `file` may report keeps the
/// read valid and its buffer in agreement with the file.
pub proof fn lemma_lio_batch_agrees(state: LioView, file: Seq<u8>, batch: LioBatch)
    requires
        state.wf(),
        state.agrees(file),
        state.served(file, batch),
    ensures
        state.step(batch).wf(),
        state.step(batch).agrees(file),
        state.step(batch).ranges == state.ranges,
{
    if state.due() > 0 && state.objection(batch.ret, batch.errno, batch.items, batch.filled.len())
        is None {
        let to = (state.done + state.due()) as int;
        assert forall|i: int| state.done <= i < to implies #[trigger] slot(
            batch.filled,
            state.ranges,
            i,
        ) == range_bytes(file, state.ranges[i]) && range_readable(
            file.len(),
            state.ranges[i],
        ) by {
            lemma_items_all_served(state, batch.items, 0, i - state.done);
            assert(state.served_one(file, batch.items[i - state.done], batch.filled, i));
            lemma_pread(file, state.ranges[i]);
        }
        assert forall|k: int| 0 <= k < to implies range_readable(
            file.len(),
            #[trigger] state.ranges.take(to)[k],
        ) by {
            if k < state.done {
                assert(state.ranges.take(state.done as int)[k] == state.ranges[k]);
            } else {
                assert(slot(batch.filled, state.ranges, k) == range_bytes(file, state.ranges[k]));
            }
        }
        lemma_slots_extend_gather(
            file,
            state.ranges,
            batch.filled,
            state.done as int,
            (state.done + state.due()) as int,
        );
    }
}

/// Whatever a kernel that serves reads from `file` reports, batch after
/// batch, the read stays valid and its buffer keeps agreeing with `file`.
pub proof fn lemma_lio_served_agrees(state: LioView, file: Seq<u8>, batches: Seq<LioBatch>)
    requires
        state.wf(),
        state.agrees(file),
        state.served_all(file, batches),
    ensures
        state.after(batches).wf(),
        state.after(batches).agrees(file),
        state.after(batches).ranges == state.ranges,
    decreases batches.len(),
{
    if batches.len() > 0 {
        lemma_lio_batch_agrees(state, file, batches[0]);
        lemma_lio_served_agrees(state.step(batches[0]), file, batches.drop_first());
    }
}

/// A list-I/O read that has nothing left to do and agrees with `file` has the
/// output of the request in its buffer.
pub proof fn lemma_lio_done_is_gather(state: LioView, file: Seq<u8>)
    requires
        state.wf(),
        state.agrees(file),
        state.action() == LioAction::Done,
    ensures
        state.output() == gather(file, state.ranges),
        all_readable(file.len(), state.ranges),
{
    lemma_gather_bounds(file, state.ranges);
    assert(state.ranges.take(state.ranges.len() as int) =~= state.ranges);
}

} // verus!
