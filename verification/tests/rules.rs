//! The rules of each part on chosen values: windows, lengths, descriptors,
//! and what each backend makes of what the kernel reports.

use read_ranges::aio::{AioAction, AioRead, Completion, QUEUE_DEPTH};
use read_ranges::descriptor::{Descriptor, Opcode};
use read_ranges::lio::{ItemStatus, LioAction, LioRead, MAX_REQUESTS};
use read_ranges::mmap::{covering_window, Window};
use read_ranges::{Dropper, ReadError, ReadRangeBuf, SyncRead};

fn request(ranges: &[(u64, usize)]) -> ReadRangeBuf {
    let mut buf = ReadRangeBuf::default();
    for r in ranges {
        buf.ranges.push(*r);
    }
    buf
}

#[test]
fn default_request_is_empty() {
    let buf = ReadRangeBuf::default();
    assert!(buf.buf.is_empty());
    assert!(buf.ranges.is_empty());
    assert_eq!(buf.output_len(), Some(0));
}

#[test]
fn output_len_is_the_sum_of_the_lengths() {
    assert_eq!(request(&[(0, 100), (1000, 200), (5000, 50)]).output_len(), Some(350));
    assert_eq!(request(&[(9, 0), (9, 0)]).output_len(), Some(0));
    let most = isize::MAX as usize;
    assert_eq!(request(&[(0, most)]).output_len(), Some(most));
    assert_eq!(request(&[(0, most - 1), (5, 1)]).output_len(), Some(most));
}

#[test]
fn output_len_that_does_not_fit_is_none() {
    let most = isize::MAX as usize;
    assert_eq!(request(&[(0, most), (0, 1)]).output_len(), None);
    assert_eq!(request(&[(0, most + 1)]).output_len(), None);
    assert_eq!(request(&[(0, usize::MAX), (0, 1)]).output_len(), None);
    assert_eq!(request(&[(0, 1), (0, usize::MAX), (0, 0)]).output_len(), None);
}

#[test]
fn guard_makes_room_for_the_output_and_shows_none_of_it() {
    let mut buf = request(&[(3, 2000), (9, 3000)]);
    buf.buf.extend_from_slice(&[10, 11]);
    let guard = Dropper::new(buf);
    assert_eq!(guard.0.buf.len(), 0);
    assert!(guard.0.buf.capacity() >= 5000);
    assert_eq!(guard.0.ranges, vec![(3, 2000), (9, 3000)]);

    let (op, _) = SyncRead::start(request(&[(0, 70000)]));
    assert!(op.into_inner().buf.capacity() >= 70000);
}

#[test]
fn guard_hands_back_the_request_as_it_is() {
    let mut buf = request(&[(3, 2)]);
    buf.buf.extend_from_slice(&[10, 11]);
    let back = Dropper(buf).into_inner();
    assert_eq!(back.buf, vec![10, 11]);
    assert_eq!(back.ranges, vec![(3, 2)]);
}

#[test]
fn guard_released_hides_the_buffer() {
    let mut buf = request(&[(3, 2)]);
    buf.buf.extend_from_slice(&[10, 11]);
    let back = Dropper(buf).release();
    assert_eq!(back.buf.len(), 0);
    assert_eq!(back.ranges, vec![(3, 2)]);
}

#[test]
fn covering_window_spans_least_offset_to_greatest_end() {
    assert_eq!(
        covering_window(&vec![(100, 10), (20, 5), (50, 100)]),
        Ok(Some(Window { base: 20, len: 130 }))
    );
    assert_eq!(covering_window(&vec![(7, 0)]), Ok(Some(Window { base: 7, len: 0 })));
    assert_eq!(
        covering_window(&vec![(1000, 200), (0, 100), (5000, 50)]),
        Ok(Some(Window { base: 0, len: 5050 }))
    );
    assert_eq!(
        covering_window(&vec![(u64::MAX - 4, 4)]),
        Ok(Some(Window { base: u64::MAX - 4, len: 4 }))
    );
}

#[test]
fn window_that_cannot_be_addressed_is_refused() {
    assert_eq!(covering_window(&vec![(u64::MAX, 1)]), Err(ReadError::Unmappable));
    assert_eq!(
        covering_window(&vec![(5, 1), (isize::MAX as u64 + 5, 1)]),
        Err(ReadError::Unmappable)
    );
    assert_eq!(
        covering_window(&vec![(5, 1), (isize::MAX as u64 + 4, 1)]),
        Ok(Some(Window { base: 5, len: isize::MAX as usize }))
    );
    assert_eq!(covering_window(&vec![(0, 1), (u64::MAX - 1, 2)]), Err(ReadError::Unmappable));
    assert_eq!(
        read_ranges::mmap::read_ranges(&[1, 2, 3], request(&[(u64::MAX, 1)])).map(|r| r.buf),
        Err(ReadError::Unmappable)
    );
}

#[test]
fn window_is_read_from_its_base() {
    let window = [10u8, 11, 12, 13, 14, 15];
    let got = read_ranges::mmap::read_ranges(&window, request(&[(104, 2), (100, 3)])).unwrap();
    assert_eq!(got.buf, vec![14, 15, 10, 11, 12]);
    assert_eq!(got.ranges, vec![(104, 2), (100, 3)]);
}

#[test]
fn window_that_ends_early_is_short() {
    let window = [10u8, 11, 12, 13];
    assert_eq!(
        read_ranges::mmap::read_ranges(&window, request(&[(104, 2), (100, 3)])).map(|r| r.buf),
        Err(ReadError::ShortRead)
    );
    assert_eq!(
        read_ranges::mmap::read_ranges(&window, request(&[(100, 4), (104, 0)])).map(|r| r.buf),
        Ok(vec![10, 11, 12, 13])
    );
}

fn descriptor(fd: i32, handle: u64, offset: u64, dest: usize, len: usize) -> Descriptor {
    Descriptor { handle, op: Opcode::Read, fd, offset, dest, len }
}

#[test]
fn descriptors_point_at_slots_in_range_order() {
    let ranges = [(500u64, 10usize), (0, 0), (20, 7), (20, 3)];
    let want = vec![
        descriptor(9, 0, 500, 0, 10),
        descriptor(9, 1, 0, 10, 0),
        descriptor(9, 2, 20, 10, 7),
        descriptor(9, 3, 20, 17, 3),
    ];
    let (op, _) = AioRead::start(9, request(&ranges));
    assert_eq!(op.descriptors(), &want);

    let (op, _) = LioRead::start(9, request(&ranges), 4);
    assert_eq!(op.control_blocks(), want);
    let (op, _) = LioRead::start(9, request(&ranges), 3);
    assert_eq!(op.control_blocks(), want[..3].to_vec());
    let ok = |len: isize| ItemStatus { returned: len, errno: 0 };
    let (op, _) = op.on_batch(0, 0, &[ok(10), ok(0), ok(7)], &[0u8; 20]);
    assert_eq!(op.control_blocks(), want[3..].to_vec());
}

#[test]
fn descriptors_of_no_range_are_none() {
    let (op, _) = AioRead::start(9, request(&[]));
    assert_eq!(op.descriptors().len(), 0);
    let (op, _) = LioRead::start(9, request(&[]), 2);
    assert_eq!(op.control_blocks().len(), 0);
}

#[test]
fn constants_of_the_backends() {
    assert_eq!(QUEUE_DEPTH, 256);
    assert_eq!(MAX_REQUESTS, 1);
}

#[test]
fn aio_waits_for_what_was_taken_then_offers_the_rest() {
    let memory: Vec<u8> = (0..9).collect();
    let (op, action) = AioRead::start(3, request(&[(0, 2), (10, 3), (20, 4)]));
    assert_eq!(action, AioAction::Submit { first: 0, count: 3 });
    let (op, action) = op.on_submitted(2);
    assert_eq!(action, AioAction::Wait { count: 2 });
    let (op, action) = op.on_completions(&[Completion { handle: 1, res: 3 }], &memory);
    assert_eq!(action, AioAction::Wait { count: 1 });
    let (op, action) = op.on_completions(&[Completion { handle: 0, res: 2 }], &memory);
    assert_eq!(action, AioAction::Submit { first: 2, count: 1 });
    let (op, action) = op.on_submitted(1);
    assert_eq!(action, AioAction::Wait { count: 1 });
    let (op, action) = op.on_completions(&[Completion { handle: 2, res: 4 }], &memory);
    assert_eq!(action, AioAction::Done);
    assert_eq!(op.into_inner().buf, memory);
}

#[test]
fn aio_takes_each_slot_when_its_request_completes() {
    let (op, _) = AioRead::start(3, request(&[(0, 2), (10, 2)]));
    let (op, _) = op.on_submitted(2);
    let (op, _) = op.on_completions(&[Completion { handle: 1, res: 2 }], &[9, 9, 3, 4]);
    let (op, action) = op.on_completions(&[Completion { handle: 0, res: 2 }], &[1, 2, 8, 8]);
    assert_eq!(action, AioAction::Done);
    assert_eq!(op.into_inner().buf, vec![1, 2, 3, 4]);
}

#[test]
fn aio_completion_of_a_request_not_submitted_is_unknown() {
    let memory = vec![0u8; 4];
    let (op, _) = AioRead::start(3, request(&[(0, 2), (10, 2)]));
    let (op, _) = op.on_submitted(1);
    let (op, action) = op.on_completions(&[Completion { handle: 1, res: 2 }], &memory);
    assert_eq!(action, AioAction::Failed(ReadError::UnknownCompletion));
    assert_eq!(op.into_inner().buf.len(), 0);

    let (op, _) = AioRead::start(3, request(&[(0, 2), (10, 2)]));
    let (op, _) = op.on_submitted(2);
    let (_, action) = op.on_completions(&[Completion { handle: 2, res: 2 }], &memory);
    assert_eq!(action, AioAction::Failed(ReadError::UnknownCompletion));

    let (op, _) = AioRead::start(3, request(&[(0, 2), (10, 2)]));
    let (op, _) = op.on_submitted(2);
    let (_, action) = op.on_completions(&[Completion { handle: u64::MAX, res: 2 }], &memory);
    assert_eq!(action, AioAction::Failed(ReadError::UnknownCompletion));
}

#[test]
fn aio_second_completion_of_a_request_is_unknown() {
    let memory = vec![0u8; 4];
    let (op, _) = AioRead::start(3, request(&[(0, 2), (10, 2)]));
    let (op, _) = op.on_submitted(2);
    let events = [Completion { handle: 0, res: 2 }, Completion { handle: 0, res: 2 }];
    let (_, action) = op.on_completions(&events, &memory);
    assert_eq!(action, AioAction::Failed(ReadError::UnknownCompletion));

    let (op, _) = AioRead::start(3, request(&[(0, 2), (10, 2)]));
    let (op, _) = op.on_submitted(2);
    let (op, _) = op.on_completions(&[Completion { handle: 0, res: 2 }], &memory);
    let (_, action) = op.on_completions(&[Completion { handle: 0, res: 2 }], &memory);
    assert_eq!(action, AioAction::Failed(ReadError::UnknownCompletion));
}

#[test]
fn aio_kernel_that_takes_more_than_offered_is_unknown() {
    let (op, _) = AioRead::start(3, request(&[(0, 2), (10, 2)]));
    let (op, action) = op.on_submitted(3);
    assert_eq!(action, AioAction::Failed(ReadError::UnknownCompletion));
    assert_eq!(op.into_inner().buf.len(), 0);
    let (op, _) = AioRead::start(3, request(&[(0, 2), (10, 2)]));
    let (op, _) = op.on_submitted(1);
    let (_, action) = op.on_submitted(2);
    assert_eq!(action, AioAction::Failed(ReadError::UnknownCompletion));
}

#[test]
fn aio_negative_result_is_the_os_error_of_that_code() {
    let memory = vec![0u8; 2];
    for (res, code) in [
        (-5i64, 5i32),
        (-1, 1),
        (-4095, 4095),
        (-2147483647, 2147483647),
        (-2147483648, i32::MAX),
        (i64::MIN, i32::MAX),
    ] {
        let (op, _) = AioRead::start(3, request(&[(0, 2)]));
        let (op, _) = op.on_submitted(1);
        let (_, action) = op.on_completions(&[Completion { handle: 0, res }], &memory);
        assert_eq!(action, AioAction::Failed(ReadError::Os(code)));
    }
}

#[test]
fn aio_checks_come_in_order_and_the_first_failure_stands() {
    let memory = vec![0u8; 4];
    let (op, _) = AioRead::start(3, request(&[(0, 2), (10, 2)]));
    let (op, _) = op.on_submitted(2);
    let events = [Completion { handle: 1, res: 1 }, Completion { handle: 0, res: -9 }];
    let (_, action) = op.on_completions(&events, &memory);
    assert_eq!(action, AioAction::Failed(ReadError::ShortRead));

    let (op, _) = AioRead::start(3, request(&[(0, 2), (10, 2)]));
    let (op, _) = op.on_submitted(2);
    let events = [Completion { handle: 0, res: -9 }, Completion { handle: 7, res: 2 }];
    let (_, action) = op.on_completions(&events, &memory);
    assert_eq!(action, AioAction::Failed(ReadError::Os(9)));

    let (op, _) = AioRead::start(3, request(&[(0, 2), (10, 2)]));
    let (op, _) = op.on_submitted(2);
    let (_, action) = op.on_completions(&[Completion { handle: 7, res: -9 }], &memory);
    assert_eq!(action, AioAction::Failed(ReadError::UnknownCompletion));

    let (op, _) = AioRead::start(3, request(&[(0, 2), (10, 2)]));
    let (op, _) = op.on_submitted(2);
    let (_, action) = op.on_completions(&[Completion { handle: 0, res: 3 }], &memory);
    assert_eq!(action, AioAction::Failed(ReadError::ShortRead));
}

#[test]
fn aio_memory_that_lacks_the_slot_is_short() {
    let (op, _) = AioRead::start(3, request(&[(0, 2), (10, 2)]));
    let (op, _) = op.on_submitted(2);
    let (op, action) = op.on_completions(&[Completion { handle: 0, res: 2 }], &[1, 2, 3]);
    assert_eq!(action, AioAction::Wait { count: 1 });
    let (_, action) = op.on_completions(&[Completion { handle: 1, res: 2 }], &[1, 2, 3]);
    assert_eq!(action, AioAction::Failed(ReadError::ShortRead));
}

#[test]
fn aio_call_that_fails_passes_its_code_on() {
    let (op, _) = AioRead::start(3, request(&[(0, 2)]));
    let (op, action) = op.on_error(libc::EAGAIN);
    assert_eq!(action, AioAction::Failed(ReadError::Os(libc::EAGAIN)));
    assert_eq!(op.into_inner().buf.len(), 0);
}

#[test]
fn lio_codes_are_those_of_the_platform() {
    let (op, _) = LioRead::start(3, request(&[(0, 2)]), 1);
    let codes = op.codes();
    assert_eq!(codes.again, libc::EAGAIN);
    assert_eq!(codes.intr, libc::EINTR);
    assert_eq!(codes.io, libc::EIO);
}

#[test]
fn lio_batches_are_as_large_as_allowed() {
    let ranges = [(0u64, 1usize), (1, 1), (2, 1), (3, 1), (4, 1)];
    let memory = vec![0u8; 5];
    let ok = ItemStatus { returned: 1, errno: 0 };
    let (op, action) = LioRead::start(3, request(&ranges), 2);
    assert_eq!(action, LioAction::Submit { first: 0, count: 2 });
    assert_eq!(
        op.control_blocks(),
        vec![descriptor(3, 0, 0, 0, 1), descriptor(3, 1, 1, 1, 1)]
    );
    let (op, action) = op.on_batch(0, 0, &[ok, ok], &memory);
    assert_eq!(action, LioAction::Submit { first: 2, count: 2 });
    assert_eq!(
        op.control_blocks(),
        vec![descriptor(3, 2, 2, 2, 1), descriptor(3, 3, 3, 3, 1)]
    );
    let (op, action) = op.on_batch(0, 0, &[ok, ok], &memory);
    assert_eq!(action, LioAction::Submit { first: 4, count: 1 });
    assert_eq!(op.control_blocks(), vec![descriptor(3, 4, 4, 4, 1)]);
    let (op, action) = op.on_batch(0, 0, &[ok], &memory);
    assert_eq!(action, LioAction::Done);
    assert_eq!(op.into_inner().buf, memory);

    let (_, action) = LioRead::start(3, request(&ranges), MAX_REQUESTS);
    assert_eq!(action, LioAction::Submit { first: 0, count: 1 });
    let (_, action) = LioRead::start(3, request(&ranges), 9);
    assert_eq!(action, LioAction::Submit { first: 0, count: 5 });
}

#[test]
fn lio_call_that_fails_with_a_named_code_ends_the_request_at_once() {
    let memory = vec![0u8; 2];
    for code in [libc::EAGAIN, libc::EINTR, libc::EIO] {
        let (op, _) = LioRead::start(3, request(&[(0, 2)]), 1);
        let items = [ItemStatus { returned: -1, errno: libc::EBADF }];
        let (op, action) = op.on_batch(-1, code, &items, &memory);
        assert_eq!(action, LioAction::Failed(ReadError::Os(code)));
        assert_eq!(op.into_inner().buf.len(), 0);
    }
}

#[test]
fn lio_other_code_of_the_call_yields_to_the_requests() {
    let memory = vec![0u8; 2];
    let (op, _) = LioRead::start(3, request(&[(0, 2)]), 1);
    let items = [ItemStatus { returned: -1, errno: libc::EBADF }];
    let (_, action) = op.on_batch(-1, libc::EINVAL, &items, &memory);
    assert_eq!(action, LioAction::Failed(ReadError::Os(libc::EBADF)));

    let (op, _) = LioRead::start(3, request(&[(0, 2)]), 1);
    let items = [ItemStatus { returned: 2, errno: 0 }];
    let (_, action) = op.on_batch(-1, libc::EINVAL, &items, &memory);
    assert_eq!(action, LioAction::Failed(ReadError::Os(libc::EINVAL)));

    let (op, _) = LioRead::start(3, request(&[(0, 2)]), 1);
    let (_, action) = op.on_batch(-1, 0, &items, &memory);
    assert_eq!(action, LioAction::Done);

    let (op, _) = LioRead::start(3, request(&[(0, 2)]), 1);
    let (_, action) = op.on_batch(0, libc::EIO, &items, &memory);
    assert_eq!(action, LioAction::Done);
}

#[test]
fn lio_first_request_that_failed_decides() {
    let memory = vec![0u8; 6];
    let (op, _) = LioRead::start(3, request(&[(0, 2), (2, 2), (4, 2)]), 3);
    let items = [
        ItemStatus { returned: 2, errno: 0 },
        ItemStatus { returned: 1, errno: 0 },
        ItemStatus { returned: -1, errno: libc::EBADF },
    ];
    let (_, action) = op.on_batch(0, 0, &items, &memory);
    assert_eq!(action, LioAction::Failed(ReadError::Os(libc::EIO)));

    let (op, _) = LioRead::start(3, request(&[(0, 2), (2, 2), (4, 2)]), 3);
    let items = [
        ItemStatus { returned: 2, errno: 0 },
        ItemStatus { returned: -1, errno: libc::EBADF },
        ItemStatus { returned: 1, errno: 0 },
    ];
    let (_, action) = op.on_batch(0, 0, &items, &memory);
    assert_eq!(action, LioAction::Failed(ReadError::Os(libc::EBADF)));
}

#[test]
fn lio_count_that_disagrees_is_an_io_error() {
    let memory = vec![0u8; 4];
    for returned in [0isize, 1, 3, isize::MAX] {
        let (op, _) = LioRead::start(3, request(&[(0, 2)]), 1);
        let (_, action) = op.on_batch(0, 0, &[ItemStatus { returned, errno: 0 }], &memory);
        assert_eq!(action, LioAction::Failed(ReadError::Os(libc::EIO)));
    }
}

#[test]
fn lio_request_without_status_or_memory_is_an_io_error() {
    let ok = ItemStatus { returned: 2, errno: 0 };
    let (op, _) = LioRead::start(3, request(&[(0, 2), (2, 2)]), 2);
    let (_, action) = op.on_batch(0, 0, &[ok], &[0, 0, 0, 0]);
    assert_eq!(action, LioAction::Failed(ReadError::Os(libc::EIO)));

    let (op, _) = LioRead::start(3, request(&[(0, 2), (2, 2)]), 2);
    let (_, action) = op.on_batch(0, 0, &[ok, ok], &[0, 0, 0]);
    assert_eq!(action, LioAction::Failed(ReadError::Os(libc::EIO)));

    let (op, _) = LioRead::start(3, request(&[(0, 2), (2, 2)]), 2);
    let (op, action) = op.on_batch(0, 0, &[ok, ok, ok], &[5, 6, 7, 8, 9]);
    assert_eq!(action, LioAction::Done);
    assert_eq!(op.into_inner().buf, vec![5, 6, 7, 8]);
}
