//! The mathematics of a scatter-read request.
//!
//! A request is a sequence of `(offset, length)` ranges. Its output is one
//! buffer in which range `i` owns the slot that starts where the lengths of the
//! ranges before it end. Everything here is specification and proof; the
//! backends state their contracts over these functions.

use vstd::prelude::*;

verus! {

/// The number of bytes a request asks for: the sum of its lengths.
pub open spec fn total_len(ranges: Seq<(u64, usize)>) -> nat
    decreases ranges.len(),
{
    if ranges.len() == 0 {
        0
    } else {
        total_len(ranges.drop_last()) + ranges.last().1 as nat
    }
}

/// Where the slot of range `i` starts in the output buffer.
pub open spec fn slot_start(ranges: Seq<(u64, usize)>, i: int) -> nat {
    total_len(ranges.take(i))
}

/// One past the last byte of the slot of range `i`.
pub open spec fn slot_end(ranges: Seq<(u64, usize)>, i: int) -> nat {
    slot_start(ranges, i) + ranges[i].1 as nat
}

/// What `buf` holds in the slot of range `i`.
pub open spec fn slot(buf: Seq<u8>, ranges: Seq<(u64, usize)>, i: int) -> Seq<u8> {
    buf.subrange(slot_start(ranges, i) as int, slot_end(ranges, i) as int)
}

/// A file of `file_len` bytes holds every byte that the range names. An
/// empty range names none, wherever it lies.
pub open spec fn range_readable(file_len: nat, range: (u64, usize)) -> bool {
    range.1 == 0 || range.0 + range.1 <= file_len
}

/// A file of `file_len` bytes holds every byte that the request names.
pub open spec fn all_readable(file_len: nat, ranges: Seq<(u64, usize)>) -> bool {
    forall|i: int| 0 <= i < ranges.len() ==> range_readable(file_len, #[trigger] ranges[i])
}

/// The bytes of `file` that `range` names.
pub open spec fn range_bytes(file: Seq<u8>, range: (u64, usize)) -> Seq<u8> {
    if range.1 == 0 {
        Seq::empty()
    } else {
        file.subrange(range.0 as int, range.0 + range.1)
    }
}

/// What a positional read of `range` delivers from `file`: the bytes the range
/// names, cut off where the file ends.
pub open spec fn pread(file: Seq<u8>, range: (u64, usize)) -> Seq<u8> {
    if range_readable(file.len(), range) {
        range_bytes(file, range)
    } else if range.0 >= file.len() {
        Seq::empty()
    } else {
        file.subrange(range.0 as int, file.len() as int)
    }
}

/// The output of a request on `file`: the bytes of each range, in the order in
/// which the ranges were given.
pub open spec fn gather(file: Seq<u8>, ranges: Seq<(u64, usize)>) -> Seq<u8>
    decreases ranges.len(),
{
    if ranges.len() == 0 {
        Seq::empty()
    } else {
        gather(file, ranges.drop_last()) + range_bytes(file, ranges.last())
    }
}

/// `buf` with the bytes from `at` on replaced by `data`.
pub open spec fn place(buf: Seq<u8>, at: int, data: Seq<u8>) -> Seq<u8> {
    Seq::new(
        buf.len(),
        |p: int|
            if at <= p < at + data.len() {
                data[p - at]
            } else {
                buf[p]
            },
    )
}

/// The slot of range `i + 1` starts where the slot of range `i` ends.
pub proof fn lemma_slot_step(ranges: Seq<(u64, usize)>, i: int)
    requires
        0 <= i < ranges.len(),
    ensures
        slot_start(ranges, i + 1) == slot_end(ranges, i),
{
    assert(ranges.take(i + 1).drop_last() =~= ranges.take(i));
    assert(ranges.take(i + 1).last() == ranges[i]);
}

/// The first slot starts at zero and the last one ends at the total length.
pub proof fn lemma_slot_bounds(ranges: Seq<(u64, usize)>)
    ensures
        slot_start(ranges, 0) == 0,
        slot_start(ranges, ranges.len() as int) == total_len(ranges),
{
    assert(ranges.take(0) =~= Seq::<(u64, usize)>::empty());
    assert(ranges.take(ranges.len() as int) =~= ranges);
}

/// Slots are laid out in the order of the ranges.
pub proof fn lemma_slot_monotone(ranges: Seq<(u64, usize)>, i: int, j: int)
    requires
        0 <= i <= j <= ranges.len(),
    ensures
        slot_start(ranges, i) <= slot_start(ranges, j),
    decreases j - i,
{
    if i < j {
        lemma_slot_monotone(ranges, i, j - 1);
        lemma_slot_step(ranges, j - 1);
    }
}

/// Two different ranges own disjoint slots, and every slot lies inside the
/// output buffer.
pub proof fn lemma_slots_disjoint(ranges: Seq<(u64, usize)>, i: int, j: int)
    requires
        0 <= i < j < ranges.len(),
    ensures
        slot_end(ranges, i) <= slot_start(ranges, j),
        slot_end(ranges, j) <= total_len(ranges),
{
    lemma_slot_step(ranges, i);
    lemma_slot_monotone(ranges, i + 1, j);
    lemma_slot_in_buffer(ranges, j);
}

/// Every slot lies inside the output buffer.
pub proof fn lemma_slot_in_buffer(ranges: Seq<(u64, usize)>, i: int)
    requires
        0 <= i < ranges.len(),
    ensures
        slot_end(ranges, i) <= total_len(ranges),
{
    lemma_slot_step(ranges, i);
    lemma_slot_monotone(ranges, i + 1, ranges.len() as int);
    lemma_slot_bounds(ranges);
}

/// A prefix of a request asks for the bytes of its ranges only.
pub proof fn lemma_take_slots(ranges: Seq<(u64, usize)>, n: int, i: int)
    requires
        0 <= i <= n <= ranges.len(),
    ensures
        slot_start(ranges.take(n), i) == slot_start(ranges, i),
{
    assert(ranges.take(n).take(i) =~= ranges.take(i));
}

/// Gathering one range more appends that range's bytes.
pub proof fn lemma_gather_step(file: Seq<u8>, ranges: Seq<(u64, usize)>, i: int)
    requires
        0 <= i < ranges.len(),
    ensures
        gather(file, ranges.take(i + 1)) == gather(file, ranges.take(i)) + range_bytes(
            file,
            ranges[i],
        ),
{
    assert(ranges.take(i + 1).drop_last() =~= ranges.take(i));
    assert(ranges.take(i + 1).last() == ranges[i]);
}

/// Gathering no range gives no byte, and gathering every range is the output.
pub proof fn lemma_gather_bounds(file: Seq<u8>, ranges: Seq<(u64, usize)>)
    ensures
        gather(file, ranges.take(0)) == Seq::<u8>::empty(),
        gather(file, ranges.take(ranges.len() as int)) == gather(file, ranges),
{
    assert(ranges.take(0) =~= Seq::<(u64, usize)>::empty());
    assert(ranges.take(ranges.len() as int) =~= ranges);
}

/// A positional read delivers the bytes of its range if the file holds them
/// all, and fewer bytes than the range asked for if it does not.
pub proof fn lemma_pread(file: Seq<u8>, range: (u64, usize))
    ensures
        range_bytes(file, range).len() == range.1 || !range_readable(file.len(), range),
        range_readable(file.len(), range) ==> pread(file, range) == range_bytes(file, range),
        !range_readable(file.len(), range) ==> pread(file, range).len() < range.1,
{
}

/// Where the file holds the bytes of every range, the output has exactly the
/// total length of the request.
pub proof fn lemma_gather_len(file: Seq<u8>, ranges: Seq<(u64, usize)>)
    requires
        all_readable(file.len(), ranges),
    ensures
        gather(file, ranges).len() == total_len(ranges),
    decreases ranges.len(),
{
    if ranges.len() > 0 {
        let front = ranges.drop_last();
        assert forall|i: int| 0 <= i < front.len() implies range_readable(
            file.len(),
            #[trigger] front[i],
        ) by {
            assert(front[i] == ranges[i]);
        }
        lemma_gather_len(file, front);
        assert(range_readable(file.len(), ranges[ranges.len() - 1]));
    }
}

/// In the output, the slot of range `i` holds the bytes of range `i`.
pub proof fn lemma_gather_slot(file: Seq<u8>, ranges: Seq<(u64, usize)>, i: int)
    requires
        all_readable(file.len(), ranges),
        0 <= i < ranges.len(),
    ensures
        slot_end(ranges, i) <= gather(file, ranges).len(),
        slot(gather(file, ranges), ranges, i) == range_bytes(file, ranges[i]),
    decreases ranges.len(),
{
    let front = ranges.drop_last();
    let last = ranges.len() - 1;
    assert forall|k: int| 0 <= k < front.len() implies range_readable(
        file.len(),
        #[trigger] front[k],
    ) by {
        assert(front[k] == ranges[k]);
    }
    lemma_gather_len(file, front);
    lemma_gather_len(file, ranges);
    assert(range_readable(file.len(), ranges[last]));
    assert(front =~= ranges.take(last));
    if i == last {
        lemma_slot_step(ranges, i);
        lemma_slot_bounds(ranges);
        assert(gather(file, ranges).subrange(
            slot_start(ranges, i) as int,
            slot_end(ranges, i) as int,
        ) =~= range_bytes(file, ranges[i]));
    } else {
        lemma_gather_slot(file, front, i);
        lemma_take_slots(ranges, last, i);
        assert(front[i] == ranges[i]);
        assert(gather(file, ranges).subrange(
            slot_start(ranges, i) as int,
            slot_end(ranges, i) as int,
        ) =~= gather(file, front).subrange(
            slot_start(front, i) as int,
            slot_end(front, i) as int,
        ));
    }
}

/// A buffer of the total length in which every slot holds the bytes of its
/// range is the output of the request, whatever the order in which the slots
/// were filled.
pub proof fn lemma_filled_slots_are_gather(
    file: Seq<u8>,
    ranges: Seq<(u64, usize)>,
    buf: Seq<u8>,
)
    requires
        buf.len() == total_len(ranges),
        forall|i: int|
            0 <= i < ranges.len() ==> #[trigger] slot(buf, ranges, i) == range_bytes(
                file,
                ranges[i],
            ),
    ensures
        buf == gather(file, ranges),
{
    lemma_filled_prefix(file, ranges, buf, ranges.len() as int);
    lemma_slot_bounds(ranges);
    lemma_gather_bounds(file, ranges);
    assert(buf.take(buf.len() as int) =~= buf);
}

proof fn lemma_filled_prefix(file: Seq<u8>, ranges: Seq<(u64, usize)>, buf: Seq<u8>, n: int)
    requires
        buf.len() == total_len(ranges),
        0 <= n <= ranges.len(),
        forall|i: int|
            0 <= i < ranges.len() ==> #[trigger] slot(buf, ranges, i) == range_bytes(
                file,
                ranges[i],
            ),
    ensures
        slot_start(ranges, n) <= buf.len(),
        buf.take(slot_start(ranges, n) as int) == gather(file, ranges.take(n)),
    decreases n,
{
    lemma_slot_monotone(ranges, n, ranges.len() as int);
    lemma_slot_bounds(ranges);
    if n == 0 {
        lemma_gather_bounds(file, ranges);
        assert(buf.take(0) =~= Seq::<u8>::empty());
    } else {
        lemma_filled_prefix(file, ranges, buf, n - 1);
        lemma_slot_step(ranges, n - 1);
        lemma_gather_step(file, ranges, n - 1);
        let cut = slot_start(ranges, n - 1) as int;
        let end = slot_start(ranges, n) as int;
        let held = slot(buf, ranges, n - 1);
        assert(held == range_bytes(file, ranges[n - 1]));
        assert(buf.take(end) == buf.take(cut) + held) by {
            assert(0 <= cut <= end <= buf.len());
            assert(buf.take(end) =~= buf.take(cut) + buf.subrange(cut, end));
        }
    }
}

} // verus!
