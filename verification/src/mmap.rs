//! The memory-map backend: the window of the file that covers the whole
//! request is mapped once, and each range is copied out of it.
//!
//! Mapping is the caller's part. This module says which window to map and
//! copies the ranges out of the bytes of that window.

use crate::error::ReadError;
use crate::layout::{
    all_readable, gather, lemma_gather_bounds, lemma_gather_step, range_bytes, range_readable,
    total_len,
};
use crate::read_ranges::{Dropper, ReadRangeBuf};
use vstd::prelude::*;

verus! {

/// A span of a file: `len` bytes from the offset `base` on.
#[derive(Clone, Copy, Debug, PartialEq, Eq, Structural)]
pub struct Window {
    pub base: u64,
    pub len: usize,
}

/// The least offset of the request, or zero where it has no range.
pub open spec fn cover_start(ranges: Seq<(u64, usize)>) -> nat
    decreases ranges.len(),
{
    if ranges.len() == 0 {
        0
    } else if ranges.len() == 1 {
        ranges[0].0 as nat
    } else if ranges.last().0 < cover_start(ranges.drop_last()) {
        ranges.last().0 as nat
    } else {
        cover_start(ranges.drop_last())
    }
}

/// The greatest end of a range of the request, or zero where it has none.
pub open spec fn cover_end(ranges: Seq<(u64, usize)>) -> nat
    decreases ranges.len(),
{
    if ranges.len() == 0 {
        0
    } else if ranges.last().0 + ranges.last().1 > cover_end(ranges.drop_last()) {
        (ranges.last().0 + ranges.last().1) as nat
    } else {
        cover_end(ranges.drop_last())
    }
}

/// The covering window of the request can be addressed: its end is a file
/// offset and its length is one that a span of memory can have.
pub open spec fn mappable(ranges: Seq<(u64, usize)>) -> bool {
    cover_end(ranges) <= u64::MAX && cover_end(ranges) - cover_start(ranges) <= isize::MAX
}

/// The request as the window sees it: every offset counted from `base`.
pub open spec fn rebased(ranges: Seq<(u64, usize)>, base: nat) -> Seq<(u64, usize)> {
    Seq::new(ranges.len(), |i: int| ((ranges[i].0 - base) as u64, ranges[i].1))
}

/// The covering window starts at an offset of the request and ends at an end
/// of one of its ranges, and no range of the request reaches out of it: it is
/// the smallest span that holds them all.
pub proof fn lemma_cover_is_tight(ranges: Seq<(u64, usize)>)
    requires
        ranges.len() > 0,
    ensures
        exists|i: int| 0 <= i < ranges.len() && cover_start(ranges) == (#[trigger] ranges[i]).0,
        exists|i: int|
            0 <= i < ranges.len() && cover_end(ranges) == (#[trigger] ranges[i]).0 + ranges[i].1,
        forall|i: int|
            0 <= i < ranges.len() ==> cover_start(ranges) <= (#[trigger] ranges[i]).0
                && ranges[i].0 + ranges[i].1 <= cover_end(ranges),
        cover_start(ranges) <= cover_end(ranges),
    decreases ranges.len(),
{
    let last = ranges.len() - 1;
    let front = ranges.drop_last();
    if ranges.len() == 1 {
        assert(front.len() == 0);
        assert(cover_start(ranges) == ranges[0].0);
        assert(cover_end(ranges) == ranges[0].0 + ranges[0].1);
    } else {
        lemma_cover_is_tight(front);
        let i = choose|i: int|
            0 <= i < front.len() && cover_start(front) == (#[trigger] front[i]).0;
        let j = choose|j: int|
            0 <= j < front.len() && cover_end(front) == (#[trigger] front[j]).0 + front[j].1;
        assert(front[i] == ranges[i]);
        assert(front[j] == ranges[j]);
        if ranges[last].0 < cover_start(front) {
            assert(cover_start(ranges) == ranges[last].0);
        } else {
            assert(cover_start(ranges) == ranges[i].0);
        }
        if ranges[last].0 + ranges[last].1 > cover_end(front) {
            assert(cover_end(ranges) == ranges[last].0 + ranges[last].1);
        } else {
            assert(cover_end(ranges) == ranges[j].0 + ranges[j].1);
        }
        assert forall|k: int| 0 <= k < ranges.len() implies cover_start(ranges) <= (
        #[trigger] ranges[k]).0 && ranges[k].0 + ranges[k].1 <= cover_end(ranges) by {
            if k < last {
                assert(front[k] == ranges[k]);
            }
        }
    }
}

/// The window to map for a request: the span from its least offset to the
/// greatest end of its ranges, in whatever order the ranges come.
///
/// A request without ranges needs no window. A request whose window cannot
/// be addressed is refused.
pub fn covering_window(ranges: &Vec<(u64, usize)>) -> (r: Result<Option<Window>, ReadError>)
    ensures
        match r {
            Ok(None) => ranges@.len() == 0,
            Ok(Some(window)) => {
                &&& ranges@.len() > 0
                &&& mappable(ranges@)
                &&& window.base == cover_start(ranges@)
                &&& window.base + window.len == cover_end(ranges@)
            },
            Err(e) => e == ReadError::Unmappable && ranges@.len() > 0 && !mappable(ranges@),
        },
{
    if ranges.len() == 0 {
        return Ok(None);
    }
    let mut base: u64 = ranges[0].0;
    let mut end: u64 = ranges[0].0;
    let mut i: usize = 0;
    proof {
        assert(ranges@.take(0) =~= Seq::<(u64, usize)>::empty());
    }
    while i < ranges.len()
        invariant
            0 <= i <= ranges@.len(),
            ranges@.len() > 0,
            i == 0 ==> base == ranges@[0].0 && end == ranges@[0].0,
            i > 0 ==> base == cover_start(ranges@.take(i as int)),
            i > 0 ==> end == cover_end(ranges@.take(i as int)),
        decreases ranges@.len() - i,
    {
        let range = ranges[i];
        proof {
            assert(ranges@.take(i + 1).drop_last() =~= ranges@.take(i as int));
            assert(ranges@.take(i + 1).last() == ranges@[i as int]);
            if i > 0 {
                lemma_cover_is_tight(ranges@.take(i as int));
            }
        }
        if range.1 as u64 > u64::MAX - range.0 {
            proof {
                lemma_cover_is_tight(ranges@);
            }
            return Err(ReadError::Unmappable);
        }
        let range_end: u64 = range.0 + range.1 as u64;
        if range.0 < base {
            base = range.0;
        }
        if range_end > end {
            end = range_end;
        }
        i = i + 1;
    }
    proof {
        assert(ranges@.take(ranges@.len() as int) =~= ranges@);
        lemma_cover_is_tight(ranges@);
    }
    let span: u64 = end - base;
    if span > isize::MAX as u64 {
        return Err(ReadError::Unmappable);
    }
    Ok(Some(Window { base, len: span as usize }))
}

/// Copies the ranges of a request out of `window`, the bytes of the file from
/// the least offset of the request on.
///
/// The output is what the window holds in each range, in the order of the
/// ranges. A window that ends before a range does gives the request up as
/// short; a request whose covering window cannot be addressed is refused
/// before anything is copied. What the buffer held before is dropped.
pub fn read_ranges(window: &[u8], buf: ReadRangeBuf) -> (r: Result<ReadRangeBuf, ReadError>)
    requires
        total_len(buf.ranges@) <= isize::MAX,
    ensures
        match r {
            Ok(request) => {
                &&& mappable(buf.ranges@)
                &&& all_readable(window@.len(), rebased(buf.ranges@, cover_start(buf.ranges@)))
                &&& request.ranges@ == buf.ranges@
                &&& request.buf@ == gather(
                    window@,
                    rebased(buf.ranges@, cover_start(buf.ranges@)),
                )
            },
            Err(e) => if mappable(buf.ranges@) {
                e == ReadError::ShortRead && !all_readable(
                    window@.len(),
                    rebased(buf.ranges@, cover_start(buf.ranges@)),
                )
            } else {
                e == ReadError::Unmappable
            },
        },
{
    let ghost ranges = buf.ranges@;
    let ghost seen = rebased(ranges, cover_start(ranges));
    let base: u64 = match covering_window(&buf.ranges) {
        Err(e) => {
            return Err(e);
        },
        Ok(None) => 0,
        Ok(Some(covering)) => covering.base,
    };
    let mut guard = Dropper::new(buf);
    let mut i: usize = 0;
    proof {
        lemma_gather_bounds(window@, seen);
    }
    while i < guard.0.ranges.len()
        invariant
            0 <= i <= ranges.len(),
            guard.0.ranges@ == ranges,
            ranges == buf.ranges@,
            seen == rebased(ranges, cover_start(ranges)),
            ranges.len() > 0 ==> base == cover_start(ranges),
            mappable(ranges),
            total_len(ranges) <= isize::MAX,
            guard.0.buf@ == gather(window@, seen.take(i as int)),
            forall|k: int| 0 <= k < i ==> range_readable(window@.len(), #[trigger] seen[k]),
        decreases ranges.len() - i,
    {
        let range = guard.0.ranges[i];
        proof {
            lemma_cover_is_tight(ranges);
            lemma_gather_step(window@, seen, i as int);
            assert(seen[i as int] == ((range.0 - base) as u64, range.1));
        }
        if range.1 > 0 {
            let start: u64 = range.0 - base;
            if start > window.len() as u64 || range.1 > window.len() - start as usize {
                assert(!range_readable(window@.len(), seen[i as int]));
                assert(!all_readable(window@.len(), seen));
                return Err(ReadError::ShortRead);
            }
            let from: usize = start as usize;
            let ghost before = guard.0.buf@;
            let piece = vstd::slice::slice_subrange(window, from, from + range.1);
            guard.0.buf.extend_from_slice(piece);
            proof {
                assert(piece@ == range_bytes(window@, seen[i as int]));
                assert(guard.0.buf@ =~= before + piece@);
            }
        } else {
            proof {
                assert(guard.0.buf@ =~= guard.0.buf@ + range_bytes(window@, seen[i as int]));
            }
        }
        i = i + 1;
    }
    proof {
        lemma_gather_bounds(window@, seen);
    }
    Ok(guard.into_inner())
}

/// A window that holds what the file holds gives the output of the request:
/// copying out of the mapped window and reading the file range by range come
/// to the same bytes.
pub proof fn lemma_window_is_file(file: Seq<u8>, window: Seq<u8>, ranges: Seq<(u64, usize)>)
    requires
        cover_start(ranges) + window.len() <= file.len(),
        window == file.subrange(
            cover_start(ranges) as int,
            cover_start(ranges) + window.len() as int,
        ),
        all_readable(window.len(), rebased(ranges, cover_start(ranges))),
    ensures
        all_readable(file.len(), ranges),
        gather(window, rebased(ranges, cover_start(ranges))) == gather(file, ranges),
{
    let base = cover_start(ranges);
    let seen = rebased(ranges, base);
    if ranges.len() > 0 {
        lemma_cover_is_tight(ranges);
    }
    assert forall|i: int| 0 <= i < ranges.len() implies range_readable(
        file.len(),
        #[trigger] ranges[i],
    ) by {
        assert(range_readable(window.len(), seen[i]));
    }
    lemma_window_prefix(file, window, ranges, ranges.len() as int);
    lemma_gather_bounds(file, ranges);
    lemma_gather_bounds(window, seen);
}

proof fn lemma_window_prefix(
    file: Seq<u8>,
    window: Seq<u8>,
    ranges: Seq<(u64, usize)>,
    n: int,
)
    requires
        0 <= n <= ranges.len(),
        cover_start(ranges) + window.len() <= file.len(),
        window == file.subrange(
            cover_start(ranges) as int,
            cover_start(ranges) + window.len() as int,
        ),
        all_readable(window.len(), rebased(ranges, cover_start(ranges))),
    ensures
        gather(window, rebased(ranges, cover_start(ranges)).take(n)) == gather(
            file,
            ranges.take(n),
        ),
    decreases n,
{
    let base = cover_start(ranges);
    let seen = rebased(ranges, base);
    if n == 0 {
        lemma_gather_bounds(file, ranges);
        lemma_gather_bounds(window, seen);
    } else {
        lemma_window_prefix(file, window, ranges, n - 1);
        lemma_gather_step(file, ranges, n - 1);
        lemma_gather_step(window, seen, n - 1);
        lemma_cover_is_tight(ranges);
        assert(range_readable(window.len(), seen[n - 1]));
        assert(seen[n - 1] == ((ranges[n - 1].0 - base) as u64, ranges[n - 1].1));
        assert(range_bytes(window, seen[n - 1]) =~= range_bytes(file, ranges[n - 1]));
    }
}

} // verus!
