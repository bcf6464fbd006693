//! What holds of every backend alike.
//!
//! The backends differ in how the bytes reach the buffer: appended read by
//! read, copied out of a mapped window, or written by the kernel into slots
//! in whatever order it serves the requests. These laws say that the
//! differences do not show in what a request comes back with.

use crate::aio::{
    lemma_aio_after_wf, lemma_aio_done_is_gather, lemma_aio_served_agrees, AioAction, AioEvent,
    AioView, Completion,
};
use crate::error::ReadError;
use crate::layout::{
    all_readable, gather, lemma_gather_bounds, lemma_pread, lemma_slot_bounds, pread, range_bytes,
    range_readable, total_len,
};
use crate::lio::{
    lemma_lio_after_wf, lemma_lio_done_is_gather, lemma_lio_served_agrees, ErrnoCodes,
    ItemStatus, LioAction, LioBatch, LioView,
};
use crate::mmap::{cover_start, lemma_window_is_file, rebased};
use crate::read_ranges::{
    lemma_sync_after_wf, lemma_sync_done_is_gather, lemma_sync_read_agrees,
    lemma_sync_served_agrees, SyncAction, SyncEvent, SyncView,
};
use vstd::prelude::*;

verus! {

/// The backends agree. Whatever read a file in full, by any backend, holds
/// the same bytes: the output of the request on that file.
///
/// Take a synchronous, a native-AIO and a list-I/O read of the same request,
/// each driven by whatever a system that serves reads from `file` reported,
/// in whatever batches and order, until nothing was left to do; and take a
/// copy out of a window that holds what `file` holds. All four come back with
/// `gather(file, ranges)`.
pub proof fn lemma_backends_agree(
    file: Seq<u8>,
    fd: i32,
    ranges: Seq<(u64, usize)>,
    batch: nat,
    codes: ErrnoCodes,
    sync_events: Seq<SyncEvent>,
    aio_events: Seq<AioEvent>,
    lio_batches: Seq<LioBatch>,
    window: Seq<u8>,
)
    requires
        total_len(ranges) <= isize::MAX,
        batch >= 1,
        SyncView::start(ranges).served_all(file, sync_events),
        SyncView::start(ranges).after(sync_events).action() == SyncAction::Done,
        AioView::start(fd, ranges).served_all(file, aio_events),
        AioView::start(fd, ranges).after(aio_events).action() == AioAction::Done,
        LioView::start(fd, ranges, batch, codes).served_all(file, lio_batches),
        LioView::start(fd, ranges, batch, codes).after(lio_batches).action() == LioAction::Done,
        cover_start(ranges) + window.len() <= file.len(),
        window == file.subrange(
            cover_start(ranges) as int,
            cover_start(ranges) + window.len() as int,
        ),
        all_readable(window.len(), rebased(ranges, cover_start(ranges))),
    ensures
        SyncView::start(ranges).after(sync_events).output() == gather(file, ranges),
        AioView::start(fd, ranges).after(aio_events).output() == gather(file, ranges),
        LioView::start(fd, ranges, batch, codes).after(lio_batches).output() == gather(
            file,
            ranges,
        ),
        gather(window, rebased(ranges, cover_start(ranges))) == gather(file, ranges),
{
    lemma_start_agrees(file, fd, ranges, batch, codes);
    let sync = SyncView::start(ranges);
    let aio = AioView::start(fd, ranges);
    let lio = LioView::start(fd, ranges, batch, codes);
    lemma_sync_served_agrees(sync, file, sync_events);
    lemma_aio_served_agrees(aio, file, aio_events);
    lemma_lio_served_agrees(lio, file, lio_batches);
    lemma_sync_done_is_gather(sync.after(sync_events), file);
    lemma_aio_done_is_gather(aio.after(aio_events), file);
    lemma_lio_done_is_gather(lio.after(lio_batches), file);
    lemma_window_is_file(file, window, ranges);
}

/// Every read starts in a valid state that agrees with every file: nothing
/// has been read yet.
pub proof fn lemma_start_agrees(
    file: Seq<u8>,
    fd: i32,
    ranges: Seq<(u64, usize)>,
    batch: nat,
    codes: ErrnoCodes,
)
    requires
        total_len(ranges) <= isize::MAX,
        batch >= 1,
    ensures
        SyncView::start(ranges).wf() && SyncView::start(ranges).agrees(file),
        AioView::start(fd, ranges).wf() && AioView::start(fd, ranges).agrees(file),
        LioView::start(fd, ranges, batch, codes).wf() && LioView::start(
            fd,
            ranges,
            batch,
            codes,
        ).agrees(file),
{
    lemma_slot_bounds(ranges);
    lemma_gather_bounds(file, ranges);
}

/// A synchronous read that is served from `file` to its end comes back with
/// the output of the request if the file holds every byte that is asked for,
/// and otherwise is given up as short with nothing in its buffer.
pub proof fn lemma_sync_run(file: Seq<u8>, state: SyncView)
    requires
        state.wf(),
        state.agrees(file),
        state.failed is None,
    ensures
        state.run(file).wf(),
        (forall|i: int|
            state.next <= i < state.ranges.len() ==> range_readable(
                file.len(),
                #[trigger] state.ranges[i],
            )) ==> state.run(file).action() == SyncAction::Done && state.run(file).output()
            == gather(file, state.ranges),
        (exists|i: int|
            state.next <= i < state.ranges.len() && !range_readable(
                file.len(),
                #[trigger] state.ranges[i],
            )) ==> state.run(file).action() == SyncAction::Failed(ReadError::ShortRead)
            && state.run(file).output() == Seq::<u8>::empty(),
    decreases state.ranges.len() - state.next,
{
    if state.reading() {
        let range = state.ranges[state.next as int];
        let served = state.on_read(pread(file, range));
        lemma_sync_read_agrees(state, file);
        if served.failed is None {
            lemma_sync_run(file, served);
            assert(range_readable(file.len(), state.ranges[state.next as int]));
        }
    } else {
        lemma_sync_done_is_gather(state, file);
    }
}

/// The request of a synchronous read of a whole file: see `lemma_sync_run`.
pub proof fn lemma_sync_reads_file(file: Seq<u8>, ranges: Seq<(u64, usize)>)
    requires
        total_len(ranges) <= isize::MAX,
    ensures
        all_readable(file.len(), ranges) ==> SyncView::start(ranges).run(file).output() == gather(
            file,
            ranges,
        ),
        !all_readable(file.len(), ranges) ==> SyncView::start(ranges).run(file).action()
            == SyncAction::Failed(ReadError::ShortRead),
{
    lemma_start_agrees(
        file,
        0,
        ranges,
        1,
        ErrnoCodes { again: 0, intr: 0, io: 0 },
    );
    lemma_sync_run(file, SyncView::start(ranges));
}

/// The output of two requests made one after the other is the output of the
/// first followed by the output of the second.
pub proof fn lemma_gather_concat(
    file: Seq<u8>,
    first: Seq<(u64, usize)>,
    second: Seq<(u64, usize)>,
)
    ensures
        gather(file, first + second) == gather(file, first) + gather(file, second),
    decreases second.len(),
{
    if second.len() == 0 {
        assert(first + second =~= first);
        assert(gather(file, first) + gather(file, second) =~= gather(file, first));
    } else {
        lemma_gather_concat(file, first, second.drop_last());
        assert((first + second).drop_last() =~= first + second.drop_last());
        assert((first + second).last() == second.last());
        assert((gather(file, first) + gather(file, second.drop_last())) + range_bytes(
            file,
            second.last(),
        ) =~= gather(file, first) + (gather(file, second.drop_last()) + range_bytes(
            file,
            second.last(),
        )));
    }
}

/// The order of the output is the order of the ranges, not the order of the
/// file: a request for `a` and then `b` gives the bytes of `a` and then those
/// of `b`, also where `a` lies behind `b` in the file.
pub proof fn lemma_order_preserved(file: Seq<u8>, a: (u64, usize), b: (u64, usize))
    ensures
        gather(file, seq![a, b]) == range_bytes(file, a) + range_bytes(file, b),
{
    let both = seq![a, b];
    assert(both.drop_last() =~= seq![a]);
    assert(both.last() == b);
    assert(seq![a].drop_last() =~= Seq::<(u64, usize)>::empty());
    assert(seq![a].last() == a);
    assert(gather(file, seq![a]) =~= range_bytes(file, a)) by {
        assert(gather(file, seq![a].drop_last()) == Seq::<u8>::empty());
    }
}

/// A request without ranges asks for nothing of the driver and comes back
/// with an empty buffer, on every backend.
pub proof fn lemma_empty_request(fd: i32, batch: nat, codes: ErrnoCodes)
    ensures
        SyncView::start(Seq::empty()).action() == SyncAction::Done,
        SyncView::start(Seq::empty()).output() == Seq::<u8>::empty(),
        AioView::start(fd, Seq::empty()).action() == AioAction::Done,
        AioView::start(fd, Seq::empty()).output() == Seq::<u8>::empty(),
        LioView::start(fd, Seq::empty(), batch, codes).action() == LioAction::Done,
        LioView::start(fd, Seq::empty(), batch, codes).output() == Seq::<u8>::empty(),
        forall|window: Seq<u8>| #[trigger]
            gather(window, rebased(Seq::empty(), 0)) == Seq::<u8>::empty(),
{
    assert(total_len(Seq::<(u64, usize)>::empty()) == 0);
    assert(AioView::start(fd, Seq::empty()).output() =~= Seq::<u8>::empty());
    assert forall|window: Seq<u8>| #[trigger]
        gather(window, rebased(Seq::empty(), 0)) == Seq::<u8>::empty() by {
        assert(rebased(Seq::empty(), 0) =~= Seq::<(u64, usize)>::empty());
    }
}

/// A synchronous read of a range that the file does not hold in full is
/// given up as short: served what a positional read of `file` delivers, it
/// does not take the bytes for the range.
pub proof fn lemma_sync_short_read(file: Seq<u8>, state: SyncView)
    requires
        state.wf(),
        state.reading(),
        !range_readable(file.len(), state.ranges[state.next as int]),
    ensures
        state.on_read(pread(file, state.ranges[state.next as int])).action()
            == SyncAction::Failed(ReadError::ShortRead),
{
    lemma_pread(file, state.ranges[state.next as int]);
}

/// A native-AIO read of a range that the file does not hold in full is given
/// up as short: told the number of bytes that a positional read of `file`
/// delivers, it does not take the request for completed.
pub proof fn lemma_aio_short_read(
    file: Seq<u8>,
    state: AioView,
    handle: u64,
    res: i64,
    filled_len: nat,
)
    requires
        state.wf(),
        state.outstanding(handle),
        !range_readable(file.len(), state.ranges[handle as int]),
        res == pread(file, state.ranges[handle as int]).len(),
    ensures
        state.objection(Completion { handle, res }, filled_len) == Some(ReadError::ShortRead),
{
    lemma_pread(file, state.ranges[handle as int]);
}

/// A list-I/O read of a range that the file does not hold in full is given
/// up with the platform's I/O error: told the number of bytes that a
/// positional read of `file` delivers, it does not take the request for
/// served.
pub proof fn lemma_lio_short_read(
    file: Seq<u8>,
    state: LioView,
    items: Seq<ItemStatus>,
    idx: int,
)
    requires
        state.wf(),
        0 <= idx < state.due(),
        idx < items.len(),
        !range_readable(file.len(), state.ranges[state.done + idx]),
        items[idx].returned == pread(file, state.ranges[state.done + idx]).len(),
    ensures
        state.item_objection(items, idx) == Some(ReadError::Os(state.codes.io)),
{
    lemma_pread(file, state.ranges[state.done + idx]);
}

/// A request for bytes that the file does not hold never passes for read.
/// However the system serves it, by whatever backend, the read does not come
/// to its end, and what it hands out is empty; and a window that holds what
/// the file holds does not hold all that is asked for, so that the copy out
/// of it is refused.
pub proof fn lemma_unreadable_never_passes(
    file: Seq<u8>,
    fd: i32,
    ranges: Seq<(u64, usize)>,
    batch: nat,
    codes: ErrnoCodes,
    sync_events: Seq<SyncEvent>,
    aio_events: Seq<AioEvent>,
    lio_batches: Seq<LioBatch>,
    window: Seq<u8>,
)
    requires
        total_len(ranges) <= isize::MAX,
        batch >= 1,
        !all_readable(file.len(), ranges),
        SyncView::start(ranges).served_all(file, sync_events),
        AioView::start(fd, ranges).served_all(file, aio_events),
        LioView::start(fd, ranges, batch, codes).served_all(file, lio_batches),
        cover_start(ranges) + window.len() <= file.len(),
        window == file.subrange(
            cover_start(ranges) as int,
            cover_start(ranges) + window.len() as int,
        ),
    ensures
        SyncView::start(ranges).after(sync_events).action() != SyncAction::Done,
        SyncView::start(ranges).after(sync_events).output() == Seq::<u8>::empty(),
        AioView::start(fd, ranges).after(aio_events).action() != AioAction::Done,
        AioView::start(fd, ranges).after(aio_events).output() == Seq::<u8>::empty(),
        LioView::start(fd, ranges, batch, codes).after(lio_batches).action() != LioAction::Done,
        LioView::start(fd, ranges, batch, codes).after(lio_batches).output() == Seq::<u8>::empty(),
        !all_readable(window.len(), rebased(ranges, cover_start(ranges))),
{
    lemma_start_agrees(file, fd, ranges, batch, codes);
    let sync = SyncView::start(ranges);
    let aio = AioView::start(fd, ranges);
    let lio = LioView::start(fd, ranges, batch, codes);
    lemma_sync_served_agrees(sync, file, sync_events);
    lemma_aio_served_agrees(aio, file, aio_events);
    lemma_lio_served_agrees(lio, file, lio_batches);
    if sync.after(sync_events).action() == SyncAction::Done {
        lemma_sync_done_is_gather(sync.after(sync_events), file);
    }
    if aio.after(aio_events).action() == AioAction::Done {
        lemma_aio_done_is_gather(aio.after(aio_events), file);
    }
    if lio.after(lio_batches).action() == LioAction::Done {
        lemma_lio_done_is_gather(lio.after(lio_batches), file);
    }
    if all_readable(window.len(), rebased(ranges, cover_start(ranges))) {
        lemma_window_is_file(file, window, ranges);
    }
}

/// A request comes back with all of its output or with none of it, whatever
/// the driver reported, true or not, and wherever the read stands: the buffer
/// that is handed out is empty unless the read has nothing left to do, and
/// then it has the full length of the output. A read that was given up holds
/// nothing.
pub proof fn lemma_all_or_nothing(
    fd: i32,
    ranges: Seq<(u64, usize)>,
    batch: nat,
    codes: ErrnoCodes,
    sync_events: Seq<SyncEvent>,
    aio_events: Seq<AioEvent>,
    lio_batches: Seq<LioBatch>,
)
    requires
        total_len(ranges) <= isize::MAX,
        batch >= 1,
    ensures
        ({
            let sync = SyncView::start(ranges).after(sync_events);
            &&& sync.output().len() == 0 || (sync.action() == SyncAction::Done
                && sync.output().len() == total_len(ranges))
            &&& sync.failed is Some ==> sync.bytes.len() == 0 && sync.output().len() == 0
        }),
        ({
            let aio = AioView::start(fd, ranges).after(aio_events);
            &&& aio.output().len() == 0 || (aio.action() == AioAction::Done && aio.output().len()
                == total_len(ranges))
            &&& aio.failed is Some ==> aio.bytes.len() == 0 && aio.output().len() == 0
        }),
        ({
            let lio = LioView::start(fd, ranges, batch, codes).after(lio_batches);
            &&& lio.output().len() == 0 || (lio.action() == LioAction::Done && lio.output().len()
                == total_len(ranges))
            &&& lio.failed is Some ==> lio.bytes.len() == 0 && lio.output().len() == 0
        }),
{
    lemma_start_agrees(Seq::empty(), fd, ranges, batch, codes);
    lemma_sync_after_wf(SyncView::start(ranges), sync_events);
    lemma_aio_after_wf(AioView::start(fd, ranges), aio_events);
    lemma_lio_after_wf(LioView::start(fd, ranges, batch, codes), lio_batches);
    lemma_slot_bounds(ranges);
}

} // verus!
