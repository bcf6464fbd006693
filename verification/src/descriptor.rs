//! Request descriptors: what the kernel is told about one range.
//!
//! A descriptor names the file, the offset to read at and the slot of the
//! output buffer to read into. The slots are fixed when the descriptors are
//! built, so the order of the output does not depend on the order in which
//! the kernel serves them.

use crate::layout::{
    lemma_slot_in_buffer, lemma_slot_step, lemma_slots_disjoint, slot_end, slot_start, total_len,
};
use vstd::prelude::*;

verus! {

/// The operation that a descriptor asks for.
#[derive(Clone, Copy, Debug, PartialEq, Eq, Structural)]
pub enum Opcode {
    /// A positional read.
    Read,
}

/// One request to the kernel: read `len` bytes of the file `fd` at `offset`
/// into the output buffer from `dest` on. `handle` is the token by which the
/// kernel's report is matched to the descriptor again.
#[derive(Clone, Copy, Debug, PartialEq, Eq, Structural)]
pub struct Descriptor {
    pub handle: u64,
    pub op: Opcode,
    pub fd: i32,
    pub offset: u64,
    pub dest: usize,
    pub len: usize,
}

/// The descriptor of range `i`: its handle is its index, its destination the
/// slot of the range.
pub open spec fn descriptor_for(fd: i32, ranges: Seq<(u64, usize)>, i: int) -> Descriptor {
    Descriptor {
        handle: i as u64,
        op: Opcode::Read,
        fd,
        offset: ranges[i].0,
        dest: slot_start(ranges, i) as usize,
        len: ranges[i].1,
    }
}

/// The descriptors of the `count` ranges from `first` on, in range order.
pub open spec fn descriptors_for(
    fd: i32,
    ranges: Seq<(u64, usize)>,
    first: int,
    count: int,
) -> Seq<Descriptor> {
    Seq::new(count as nat, |k: int| descriptor_for(fd, ranges, first + k))
}

/// Builds the descriptors of the `count` ranges from `first` on. `dest` is
/// where the slot of range `first` starts.
pub(crate) fn describe(
    fd: i32,
    ranges: &Vec<(u64, usize)>,
    first: usize,
    count: usize,
    dest: usize,
) -> (list: Vec<Descriptor>)
    requires
        total_len(ranges@) <= isize::MAX,
        first + count <= ranges@.len(),
        dest == slot_start(ranges@, first as int),
    ensures
        list@ == descriptors_for(fd, ranges@, first as int, count as int),
{
    let mut list: Vec<Descriptor> = Vec::new();
    let mut at: usize = dest;
    let mut k: usize = 0;
    let n: usize = ranges.len();
    while k < count
        invariant
            0 <= k <= count,
            first + count <= ranges@.len(),
            n == ranges@.len(),
            total_len(ranges@) <= isize::MAX,
            at == slot_start(ranges@, first + k),
            list@ == descriptors_for(fd, ranges@, first as int, k as int),
        decreases count - k,
    {
        let range = ranges[first + k];
        proof {
            lemma_slot_step(ranges@, first + k);
            lemma_slot_in_buffer(ranges@, first + k);
        }
        list.push(
            Descriptor {
                handle: (first + k) as u64,
                op: Opcode::Read,
                fd,
                offset: range.0,
                dest: at,
                len: range.1,
            },
        );
        at = at + range.1;
        k = k + 1;
        proof {
            assert(list@ =~= descriptors_for(fd, ranges@, first as int, k as int));
        }
    }
    list
}

/// The descriptors of a request point at slots of the output buffer that lie
/// inside it and do not overlap.
pub proof fn lemma_descriptors_disjoint(fd: i32, ranges: Seq<(u64, usize)>, i: int, j: int)
    requires
        total_len(ranges) <= isize::MAX,
        0 <= i < j < ranges.len(),
    ensures
        descriptor_for(fd, ranges, i).dest + descriptor_for(fd, ranges, i).len <= descriptor_for(
            fd,
            ranges,
            j,
        ).dest,
        descriptor_for(fd, ranges, j).dest + descriptor_for(fd, ranges, j).len <= total_len(
            ranges,
        ),
{
    lemma_slots_disjoint(ranges, i, j);
    lemma_slot_in_buffer(ranges, i);
    assert(slot_end(ranges, i) <= slot_start(ranges, j));
}

} // verus!
