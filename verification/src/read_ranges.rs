//! The request, the guard over its buffer, and the synchronous backend: one
//! positional read per range, in order.

use crate::error::ReadError;
use crate::layout::{
    all_readable, gather, lemma_gather_bounds, lemma_gather_step, lemma_pread, lemma_slot_bounds,
    lemma_slot_in_buffer, lemma_slot_step, pread, range_readable, slot_start, total_len,
};
use vstd::prelude::*;

verus! {

/// A scatter-read request and the buffer that receives its output.
///
/// `ranges` holds `(offset, length)` pairs; their order is the order of the
/// bytes in `buf`. Ranges may overlap, repeat, be empty or come in any order.
pub struct ReadRangeBuf {
    pub buf: Vec<u8>,
    pub ranges: Vec<(u64, usize)>,
}

impl Default for ReadRangeBuf {
    fn default() -> (request: Self)
        ensures
            request.buf@.len() == 0,
            request.ranges@.len() == 0,
    {
        ReadRangeBuf { buf: Vec::new(), ranges: Vec::new() }
    }
}

impl ReadRangeBuf {
    /// The number of bytes the request asks for, or `None` where no buffer
    /// can hold that many: a buffer holds `isize::MAX` bytes at most.
    pub fn output_len(&self) -> (n: Option<usize>)
        ensures
            match n {
                Some(n) => n == total_len(self.ranges@) && n <= isize::MAX,
                None => total_len(self.ranges@) > isize::MAX,
            },
    {
        let mut sum: usize = 0;
        let mut i: usize = 0;
        while i < self.ranges.len()
            invariant
                i <= self.ranges@.len(),
                sum <= isize::MAX,
                sum == slot_start(self.ranges@, i as int),
            decreases self.ranges@.len() - i,
        {
            let len: usize = self.ranges[i].1;
            proof {
                lemma_slot_step(self.ranges@, i as int);
                lemma_slot_in_buffer(self.ranges@, i as int);
            }
            if len > isize::MAX as usize - sum {
                return None;
            }
            sum = sum + len;
            i = i + 1;
        }
        proof {
            lemma_slot_bounds(self.ranges@);
        }
        Some(sum)
    }
}

/// `Vec::reserve_exact`: sets capacity aside for `additional` more bytes and
/// leaves the contents as they are. It panics where the capacity would exceed
/// `isize::MAX` bytes; `requires` leaves that out.
#[verifier::external_body]
fn reserve_exact(buf: &mut Vec<u8>, additional: usize)
    requires
        old(buf)@.len() + additional <= isize::MAX,
    ensures
        final(buf)@ == old(buf)@,
{
    buf.reserve_exact(additional);
}

/// The guard over a request while its buffer is being filled.
///
/// While a read is under way the buffer holds bytes that are not yet the
/// output. The guard has two exits: `into_inner` for the read that filled
/// every slot, and `release` for every other, which hides what was written.
pub struct Dropper(pub ReadRangeBuf);

impl Dropper {
    /// Takes a request under guard and makes room for its output: what the
    /// buffer held is dropped, and capacity for exactly the output is set
    /// aside, with nothing of it visible yet.
    pub fn new(buf: ReadRangeBuf) -> (guard: Dropper)
        requires
            total_len(buf.ranges@) <= isize::MAX,
        ensures
            guard.0.ranges == buf.ranges,
            guard.0.buf@.len() == 0,
    {
        let total: usize = match buf.output_len() {
            Some(n) => n,
            None => 0,
        };
        let mut request = buf;
        request.buf.clear();
        reserve_exact(&mut request.buf, total);
        Dropper(request)
    }


    /// Ends the guard after a read that succeeded: the request comes back as
    /// it is.
    pub fn into_inner(self) -> (inner: ReadRangeBuf)
        ensures
            inner == self.0,
    {
        self.0
    }

    /// Ends the guard after a read that failed: the request comes back with
    /// an empty buffer.
    pub fn release(self) -> (inner: ReadRangeBuf)
        ensures
            inner.ranges == self.0.ranges,
            inner.buf@.len() == 0,
    {
        let mut inner = self.0;
        inner.buf.clear();
        inner
    }
}

/// What the driver of a synchronous read has to do next.
#[derive(Clone, Copy, Debug, PartialEq, Eq, Structural)]
pub enum SyncAction {
    /// Read `len` bytes at `offset` and report them with `on_read`, or report
    /// the error of the read with `on_error`.
    Read { offset: u64, len: usize },
    /// Every range was read: take the request with `into_inner`.
    Done,
    /// The request was given up for this reason.
    Failed(ReadError),
}

/// What the driver reports to a synchronous read.
pub enum SyncEvent {
    /// The awaited read delivered these bytes.
    Read(Seq<u8>),
    /// The awaited read failed with this error code.
    Error(i32),
}

/// The state of a synchronous read, as mathematics.
pub struct SyncView {
    /// The ranges of the request.
    pub ranges: Seq<(u64, usize)>,
    /// How many ranges have been read.
    pub next: nat,
    /// The bytes that the buffer holds.
    pub bytes: Seq<u8>,
    /// Why the request was given up, if it was.
    pub failed: Option<ReadError>,
}

impl SyncView {
    /// What holds of every state that a read can reach.
    pub open spec fn wf(self) -> bool {
        &&& total_len(self.ranges) <= isize::MAX
        &&& self.next <= self.ranges.len()
        &&& self.failed is None ==> self.bytes.len() == slot_start(self.ranges, self.next as int)
        &&& self.failed is Some ==> self.bytes.len() == 0
    }

    /// The state in which a read of `ranges` starts.
    pub open spec fn start(ranges: Seq<(u64, usize)>) -> SyncView {
        SyncView { ranges, next: 0, bytes: Seq::empty(), failed: None }
    }

    /// What the driver has to do in this state.
    pub open spec fn action(self) -> SyncAction {
        match self.failed {
            Some(e) => SyncAction::Failed(e),
            None => if self.next < self.ranges.len() {
                SyncAction::Read {
                    offset: self.ranges[self.next as int].0,
                    len: self.ranges[self.next as int].1,
                }
            } else {
                SyncAction::Done
            },
        }
    }

    /// A read is awaited.
    pub open spec fn reading(self) -> bool {
        self.failed is None && self.next < self.ranges.len()
    }

    /// The state after the request was given up because of `e`: nothing of
    /// the buffer stays visible.
    pub open spec fn fail(self, e: ReadError) -> SyncView {
        SyncView { bytes: Seq::empty(), failed: Some(e), ..self }
    }

    /// The state after the awaited read delivered `data`. As many bytes as
    /// the range asked for are appended; any other number gives the request
    /// up. Where no read is awaited, nothing changes.
    pub open spec fn on_read(self, data: Seq<u8>) -> SyncView {
        if !self.reading() {
            self
        } else if data.len() == self.ranges[self.next as int].1 {
            SyncView { next: self.next + 1, bytes: self.bytes + data, ..self }
        } else {
            self.fail(ReadError::ShortRead)
        }
    }

    /// The state after the awaited read failed with the error code `errno`.
    /// Where no read is awaited, nothing changes.
    pub open spec fn on_error(self, errno: i32) -> SyncView {
        if !self.reading() {
            self
        } else {
            self.fail(ReadError::Os(errno))
        }
    }

    /// The buffer that the request comes back with: the output once every
    /// range was read, and nothing before that or after a failure.
    pub open spec fn output(self) -> Seq<u8> {
        if self.action() == SyncAction::Done {
            self.bytes
        } else {
            Seq::empty()
        }
    }

    /// `file` holds every byte of the ranges read so far, and the buffer
    /// holds what `file` holds in them.
    pub open spec fn agrees(self, file: Seq<u8>) -> bool {
        self.failed is None ==> all_readable(file.len(), self.ranges.take(self.next as int))
            && self.bytes == gather(file, self.ranges.take(self.next as int))
    }

    /// The state after the driver reported `event`.
    pub open spec fn step(self, event: SyncEvent) -> SyncView {
        match event {
            SyncEvent::Read(data) => self.on_read(data),
            SyncEvent::Error(errno) => self.on_error(errno),
        }
    }

    /// The state after the driver reported `events`, one after the other.
    pub open spec fn after(self, events: Seq<SyncEvent>) -> SyncView
        decreases events.len(),
    {
        if events.len() == 0 {
            self
        } else {
            self.step(events[0]).after(events.drop_first())
        }
    }

    /// `event` is something that a system which serves reads from `file` may
    /// report in this state: an error, or what a positional read of the
    /// awaited range delivers.
    pub open spec fn served(self, file: Seq<u8>, event: SyncEvent) -> bool {
        match event {
            SyncEvent::Read(data) => self.reading() ==> data == pread(
                file,
                self.ranges[self.next as int],
            ),
            SyncEvent::Error(_) => true,
        }
    }

    /// Each of `events` is something that a system which serves reads from
    /// `file` may report in the state that the events before it led to.
    pub open spec fn served_all(self, file: Seq<u8>, events: Seq<SyncEvent>) -> bool
        decreases events.len(),
    {
        events.len() == 0 || (self.served(file, events[0]) && self.step(events[0]).served_all(
            file,
            events.drop_first(),
        ))
    }

    /// The state in which a read that is served from `file` ends.
    pub open spec fn run(self, file: Seq<u8>) -> SyncView
        decreases self.ranges.len() - self.next,
    {
        if self.reading() {
            let served = self.on_read(pread(file, self.ranges[self.next as int]));
            if served.failed is Some {
                served
            } else {
                served.run(file)
            }
        } else {
            self
        }
    }
}

/// A synchronous read in progress: the ranges are read one after the other,
/// each into the slot behind the one before it.
pub struct SyncRead {
    guard: Dropper,
    next: usize,
    failed: Option<ReadError>,
}

impl View for SyncRead {
    type V = SyncView;

    closed spec fn view(&self) -> SyncView {
        SyncView {
            ranges: self.guard.0.ranges@,
            next: self.next as nat,
            bytes: self.guard.0.buf@,
            failed: self.failed,
        }
    }
}

impl SyncRead {
    #[verifier::type_invariant]
    spec fn inv(self) -> bool {
        self@.wf()
    }

    /// Starts the read of a request. What the buffer held before is dropped.
    pub fn start(buf: ReadRangeBuf) -> (r: (SyncRead, SyncAction))
        requires
            total_len(buf.ranges@) <= isize::MAX,
        ensures
            r.0@ == SyncView::start(buf.ranges@),
            r.0@.wf(),
            r.1 == r.0@.action(),
    {
        let guard = Dropper::new(buf);
        proof {
            lemma_slot_bounds(guard.0.ranges@);
            assert(guard.0.buf@ =~= Seq::<u8>::empty());
        }
        let op = SyncRead { guard, next: 0, failed: None };
        let action = op.action();
        (op, action)
    }

    /// What the driver has to do next.
    pub fn action(&self) -> (action: SyncAction)
        ensures
            action == self@.action(),
            self@.wf(),
    {
        proof {
            use_type_invariant(self);
        }
        match self.failed {
            Some(e) => SyncAction::Failed(e),
            None => {
                if self.next < self.guard.0.ranges.len() {
                    let range = self.guard.0.ranges[self.next];
                    SyncAction::Read { offset: range.0, len: range.1 }
                } else {
                    SyncAction::Done
                }
            },
        }
    }

    /// Takes the bytes that the awaited read delivered.
    pub fn on_read(self, data: &[u8]) -> (r: (SyncRead, SyncAction))
        ensures
            r.0@ == self@.on_read(data@),
            r.0@.wf(),
            r.1 == r.0@.action(),
    {
        proof {
            use_type_invariant(&self);
        }
        let SyncRead { guard, next, failed } = self;
        let op = if failed.is_some() || next >= guard.0.ranges.len() {
            SyncRead { guard, next, failed }
        } else if data.len() == guard.0.ranges[next].1 {
            let mut guard = guard;
            let ghost before = guard.0.buf@;
            guard.0.buf.extend_from_slice(data);
            proof {
                lemma_slot_step(guard.0.ranges@, next as int);
                assert(guard.0.buf@ =~= before + data@);
            }
            SyncRead { guard, next: next + 1, failed: None }
        } else {
            SyncRead {
                guard: Dropper(guard.release()),
                next,
                failed: Some(ReadError::ShortRead),
            }
        };
        proof {
            assert(op@.bytes =~= self@.on_read(data@).bytes);
        }
        let action = op.action();
        (op, action)
    }

    /// Takes the error code with which the awaited read failed.
    pub fn on_error(self, errno: i32) -> (r: (SyncRead, SyncAction))
        ensures
            r.0@ == self@.on_error(errno),
            r.0@.wf(),
            r.1 == r.0@.action(),
    {
        proof {
            use_type_invariant(&self);
        }
        let SyncRead { guard, next, failed } = self;
        let op = if failed.is_some() || next >= guard.0.ranges.len() {
            SyncRead { guard, next, failed }
        } else {
            SyncRead {
                guard: Dropper(guard.release()),
                next,
                failed: Some(ReadError::Os(errno)),
            }
        };
        proof {
            assert(op@.bytes =~= self@.on_error(errno).bytes);
        }
        let action = op.action();
        (op, action)
    }

    /// Ends the read and hands the request back. Its buffer is the whole
    /// output if every range was read, and empty otherwise: no byte of a
    /// read that failed or was left unfinished is ever handed out.
    pub fn into_inner(self) -> (request: ReadRangeBuf)
        ensures
            request.ranges@ == self@.ranges,
            request.buf@ == self@.output(),
            request.buf@.len() == 0 || request.buf@.len() == total_len(self@.ranges),
    {
        proof {
            use_type_invariant(&self);
            lemma_slot_bounds(self@.ranges);
        }
        let SyncRead { guard, next, failed } = self;
        if failed.is_none() && next >= guard.0.ranges.len() {
            guard.into_inner()
        } else {
            let request = guard.release();
            assert(request.buf@ =~= Seq::<u8>::empty());
            request
        }
    }
}

/// A read that is served what `file` holds keeps holding what `file` holds,
/// and is given up as short exactly where the file lacks bytes of the range.
pub proof fn lemma_sync_read_agrees(state: SyncView, file: Seq<u8>)
    requires
        state.wf(),
        state.agrees(file),
        state.reading(),
    ensures
        ({
            let range = state.ranges[state.next as int];
            let served = state.on_read(pread(file, range));
            &&& served.wf()
            &&& served.agrees(file)
            &&& range_readable(file.len(), range) ==> served.failed is None && served.next
                == state.next + 1
            &&& !range_readable(file.len(), range) ==> served.action() == SyncAction::Failed(
                ReadError::ShortRead,
            )
        }),
{
    let i = state.next as int;
    lemma_slot_step(state.ranges, i);
    lemma_slot_in_buffer(state.ranges, i);
    lemma_pread(file, state.ranges[i]);
    lemma_gather_step(file, state.ranges, i);
    if range_readable(file.len(), state.ranges[i]) {
        assert forall|k: int| 0 <= k < i + 1 implies range_readable(
            file.len(),
            #[trigger] state.ranges.take(i + 1)[k],
        ) by {
            if k < i {
                assert(state.ranges.take(i)[k] == state.ranges[k]);
            }
        }
    }
}

/// Whatever the driver reports, the read stays valid and keeps its request.
pub proof fn lemma_sync_after_wf(state: SyncView, events: Seq<SyncEvent>)
    requires
        state.wf(),
    ensures
        state.after(events).wf(),
        state.after(events).ranges == state.ranges,
    decreases events.len(),
{
    if events.len() > 0 {
        if state.reading() {
            lemma_slot_step(state.ranges, state.next as int);
        }
        lemma_sync_after_wf(state.step(events[0]), events.drop_first());
    }
}

/// Whatever a system that serves reads from `file` reports, and in whatever
/// number, the read stays valid and its buffer keeps holding what `file`
/// holds.
pub proof fn lemma_sync_served_agrees(state: SyncView, file: Seq<u8>, events: Seq<SyncEvent>)
    requires
        state.wf(),
        state.agrees(file),
        state.served_all(file, events),
    ensures
        state.after(events).wf(),
        state.after(events).agrees(file),
        state.after(events).ranges == state.ranges,
    decreases events.len(),
{
    if events.len() > 0 {
        if state.reading() {
            lemma_sync_read_agrees(state, file);
        }
        lemma_sync_served_agrees(state.step(events[0]), file, events.drop_first());
    }
}

/// A synchronous read that has nothing left to read and holds what `file`
/// holds has the output of the request in its buffer.
pub proof fn lemma_sync_done_is_gather(state: SyncView, file: Seq<u8>)
    requires
        state.wf(),
        state.agrees(file),
        state.action() == SyncAction::Done,
    ensures
        state.output() == gather(file, state.ranges),
        all_readable(file.len(), state.ranges),
{
    lemma_gather_bounds(file, state.ranges);
    assert(state.ranges.take(state.ranges.len() as int) =~= state.ranges);
}

} // verus!
