use lethe::driver::EventRecorder;
use lethe::scheme::{Pass, Scheme, SchemeRepo};
use lethe::storage::{MemoryStorage, WipeError};
use lethe::stream::fill_block;
use lethe::task::{Verify, WipeEvent, WipeState, WipeTask};

fn scheme(key: &str) -> Scheme {
    SchemeRepo::new().find(key).unwrap().clone()
}

fn retrying_count(events: &[WipeEvent]) -> usize {
    events.iter().filter(|e| matches!(e, WipeEvent::Retrying(_, _))).count()
}

/// Checks that each pass starts after the previous one completed, that
/// progress and completion of a pass come while it is started, and that
/// `Completed`, if present, comes last.
fn assert_ordered(events: &[WipeEvent]) {
    let mut open: Option<usize> = None;
    let mut next = 0usize;
    for (j, e) in events.iter().enumerate() {
        match *e {
            WipeEvent::PassStarted(i) => {
                assert_eq!(open, None);
                assert_eq!(i, next);
                open = Some(i);
            }
            WipeEvent::PassProgress(_) => assert!(open.is_some()),
            WipeEvent::PassCompleted(i) => {
                assert_eq!(open, Some(i));
                open = None;
                next = i + 1;
            }
            WipeEvent::Completed => assert_eq!(j, events.len() - 1),
            _ => {}
        }
    }
}

fn random_block(seed: &[u8; 32], block: u64, len: usize) -> Vec<u8> {
    let mut buf = vec![0u8; len];
    fill_block(Pass::Random, seed, block, &mut buf);
    buf
}

#[test]
fn zero_a_one_mebibyte_device() {
    let mut storage = MemoryStorage::new(1048576, 512);
    storage.corrupt(0);
    storage.corrupt(1048575);
    let task = WipeTask::new(scheme("zero"), Verify::Last, 1048576, 4096, 0).unwrap();
    let mut state = WipeState::new(8);
    let mut frontend = EventRecorder::new(true);
    assert!(task.run(&mut storage, &mut state, &mut frontend));
    assert_eq!(storage.write_count(), 256);
    assert_eq!(storage.read_count(), 256);
    assert!(storage.data().iter().all(|&b| b == 0x00));
    let events = frontend.events();
    assert_eq!(events[0], WipeEvent::Started);
    assert_eq!(events[1], WipeEvent::PassStarted(0));
    assert!(events.contains(&WipeEvent::PassCompleted(0)));
    assert!(events.contains(&WipeEvent::VerifyStarted(0)));
    assert!(events.contains(&WipeEvent::VerifyCompleted(0)));
    assert_eq!(*events.last().unwrap(), WipeEvent::Completed);
    assert_eq!(retrying_count(events), 0);
    assert_ordered(events);
}

#[test]
fn fill_pass_covers_every_byte() {
    let mut storage = MemoryStorage::new(65536, 512);
    let task = WipeTask::new(scheme("one"), Verify::No, 65536, 8192, 0).unwrap();
    let mut state = WipeState::new(0);
    let mut frontend = EventRecorder::new(true);
    assert!(task.run(&mut storage, &mut state, &mut frontend));
    assert!(storage.data().iter().all(|&b| b == 0xFF));
    assert_eq!(storage.read_count(), 0);
}

#[test]
fn dod_three_passes_on_64_kib() {
    let size = 65536usize;
    let bs = 4096usize;
    let task = WipeTask::new(scheme("dod"), Verify::Last, size as u64, bs, 0).unwrap();

    // each pass on its own, in order
    let mut storage = MemoryStorage::new(size, 512);
    let mut state = WipeState::new(0);
    let mut frontend = EventRecorder::new(true);
    assert!(task.write_pass(0, &mut storage, &mut state, &mut frontend));
    assert!(storage.data().iter().all(|&b| b == 0x00));
    assert!(task.write_pass(1, &mut storage, &mut state, &mut frontend));
    assert!(storage.data().iter().all(|&b| b == 0xFF));
    assert!(task.write_pass(2, &mut storage, &mut state, &mut frontend));
    let seed = state.seeds[2].unwrap();
    for block in 0..(size / bs) {
        let expected = random_block(&seed, block as u64, bs);
        assert_eq!(&storage.data()[block * bs..(block + 1) * bs], &expected[..]);
    }
    assert!(storage.data().iter().any(|&b| b != 0xFF));

    // the whole run, reading back the random pass
    let mut storage = MemoryStorage::new(size, 512);
    let mut state = WipeState::new(0);
    let mut frontend = EventRecorder::new(true);
    assert!(task.run(&mut storage, &mut state, &mut frontend));
    let events = frontend.events();
    assert!(events.contains(&WipeEvent::VerifyStarted(2)));
    assert!(events.contains(&WipeEvent::VerifyCompleted(2)));
    assert!(!events.contains(&WipeEvent::VerifyStarted(0)));
    assert!(!events.contains(&WipeEvent::VerifyStarted(1)));
    assert_eq!(*events.last().unwrap(), WipeEvent::Completed);
    assert_ordered(events);
    assert!(state.seeds[0].is_none());
    assert!(state.seeds[1].is_none());
    let seed = state.seeds[2].unwrap();
    for block in 0..(size / bs) {
        let expected = random_block(&seed, block as u64, bs);
        assert_eq!(&storage.data()[block * bs..(block + 1) * bs], &expected[..]);
    }
}

#[test]
fn recorded_seed_reproduces_the_stream() {
    let seed = [7u8; 32];
    let a = random_block(&seed, 3, 4096);
    let b = random_block(&seed, 3, 4096);
    assert_eq!(a, b);
    assert_ne!(a, random_block(&seed, 4, 4096));
    assert_ne!(a, random_block(&[8u8; 32], 3, 4096));
    assert!(a.iter().any(|&x| x != 0));

    let mut buf = vec![0u8; 16];
    fill_block(Pass::Fill(0xAB), &seed, 9, &mut buf);
    assert_eq!(buf, vec![0xABu8; 16]);
}

#[test]
fn retry_on_transient_error() {
    let mut storage = MemoryStorage::new(65536, 512);
    storage.fail_writes_at(40960, 1);
    let task = WipeTask::new(scheme("zero"), Verify::No, 65536, 4096, 0).unwrap();
    let mut state = WipeState::new(3);
    let mut frontend = EventRecorder::new(true);
    assert!(task.run(&mut storage, &mut state, &mut frontend));
    let events = frontend.events();
    assert_eq!(retrying_count(events), 1);
    assert!(events.contains(&WipeEvent::Retrying(40960, WipeError::Io)));
    assert!(events.contains(&WipeEvent::PassCompleted(0)));
    assert_eq!(*events.last().unwrap(), WipeEvent::Completed);
    assert_eq!(state.retries_left, 2);
    assert_ordered(events);
}

#[test]
fn retry_exhaustion() {
    let mut storage = MemoryStorage::new(65536, 512);
    storage.fail_writes_at(5 * 4096, u64::MAX);
    let task = WipeTask::new(scheme("one"), Verify::No, 65536, 4096, 0).unwrap();
    let mut state = WipeState::new(2);
    let mut frontend = EventRecorder::new(true);
    assert!(!task.run(&mut storage, &mut state, &mut frontend));
    let events = frontend.events();
    assert_eq!(retrying_count(events), 2);
    assert_eq!(*events.last().unwrap(), WipeEvent::Aborted(WipeError::Io));
    assert!(!events.contains(&WipeEvent::Completed));
    assert_eq!(state.retries_left, 0);
    assert!(storage.data()[..5 * 4096].iter().all(|&b| b == 0xFF));
    assert!(storage.data()[6 * 4096..].iter().all(|&b| b == 0x00));
    assert_ordered(events);
}

#[test]
fn unaligned_offset_rejected() {
    let r = WipeTask::new(scheme("zero"), Verify::Last, 1048576, 4096, 3000);
    assert_eq!(r.err(), Some(WipeError::InvalidArgument));
}

#[test]
fn invalid_plans_rejected() {
    let bad = |total: u64, bs: usize, offset: u64| {
        WipeTask::new(scheme("zero"), Verify::No, total, bs, offset).err()
    };
    assert_eq!(bad(65536, 3000, 0), Some(WipeError::InvalidArgument));
    assert_eq!(bad(65536, 0, 0), Some(WipeError::InvalidArgument));
    assert_eq!(bad(65536, 4096, 65536), Some(WipeError::InvalidArgument));
    assert_eq!(bad(6000, 4096, 4096), Some(WipeError::InvalidArgument));
    assert_eq!(bad(4095, 4096, 0), Some(WipeError::InvalidArgument));
    assert_eq!(bad(6000, 4096, 0), None);
    assert_eq!(bad(65536, 4096, 8192), None);
}

#[test]
fn construction_is_repeatable() {
    let a = WipeTask::new(scheme("dod"), Verify::All, 1 << 20, 4096, 8192).unwrap();
    let b = WipeTask::new(scheme("dod"), Verify::All, 1 << 20, 4096, 8192).unwrap();
    assert_eq!(a.scheme.passes, b.scheme.passes);
    assert_eq!(a.verify, b.verify);
    assert_eq!(a.total_size, b.total_size);
    assert_eq!(a.block_size, b.block_size);
    assert_eq!(a.offset, b.offset);
    assert_eq!(a.end(), b.end());
}

#[test]
fn partial_tail_and_offset_are_left_alone() {
    let mut storage = MemoryStorage::new(6000, 512);
    let task = WipeTask::new(scheme("one"), Verify::All, 6000, 1024, 2048).unwrap();
    assert_eq!(task.end(), 5120);
    let mut state = WipeState::new(0);
    let mut frontend = EventRecorder::new(true);
    assert!(task.run(&mut storage, &mut state, &mut frontend));
    let data = storage.data();
    assert!(data[..2048].iter().all(|&b| b == 0x00));
    assert!(data[2048..5120].iter().all(|&b| b == 0xFF));
    assert!(data[5120..].iter().all(|&b| b == 0x00));
    assert_eq!(storage.write_count(), 3);
}

#[test]
fn verify_all_mismatch() {
    let mut storage = MemoryStorage::new(65536, 512);
    let task = WipeTask::new(scheme("random"), Verify::All, 65536, 4096, 0).unwrap();
    let mut state = WipeState::new(3);
    let mut frontend = EventRecorder::new(true);
    assert!(task.write_pass(0, &mut storage, &mut state, &mut frontend));
    storage.corrupt(5000);
    assert!(!task.verify_pass(0, &mut storage, &mut state, &mut frontend));
    let events = frontend.events();
    assert_eq!(
        *events.last().unwrap(),
        WipeEvent::Aborted(WipeError::VerificationMismatch)
    );
    assert_eq!(retrying_count(events), 3);
    assert!(events.contains(&WipeEvent::Retrying(4096, WipeError::VerificationMismatch)));
}

#[test]
fn undisturbed_random_pass_verifies() {
    let mut storage = MemoryStorage::new(65536, 512);
    let task = WipeTask::new(scheme("random2x"), Verify::All, 65536, 4096, 0).unwrap();
    let mut state = WipeState::new(0);
    let mut frontend = EventRecorder::new(true);
    assert!(task.run(&mut storage, &mut state, &mut frontend));
    let events = frontend.events();
    assert!(events.contains(&WipeEvent::VerifyCompleted(0)));
    assert!(events.contains(&WipeEvent::VerifyCompleted(1)));
    assert_ne!(state.seeds[0], state.seeds[1]);
    assert!(task.verify_pass(1, &mut storage, &mut state, &mut frontend));
    assert!(!task.verify_pass(0, &mut storage, &mut state, &mut frontend));
}

#[test]
fn declined_confirmation_writes_nothing() {
    let mut storage = MemoryStorage::new(8192, 512);
    let task = WipeTask::new(scheme("one"), Verify::Last, 8192, 4096, 0).unwrap();
    let mut state = WipeState::new(0);
    let mut frontend = EventRecorder::new(false);
    assert!(!task.run(&mut storage, &mut state, &mut frontend));
    assert_eq!(
        frontend.events().clone(),
        vec![WipeEvent::Aborted(WipeError::UserDeclined)]
    );
    assert_eq!(storage.write_count(), 0);
}

#[test]
fn cancellation_stops_the_run() {
    let mut storage = MemoryStorage::new(8192, 512);
    let task = WipeTask::new(scheme("one"), Verify::Last, 8192, 4096, 0).unwrap();
    let mut state = WipeState::new(0);
    let mut frontend = EventRecorder::new(true);
    frontend.cancel();
    assert!(!task.run(&mut storage, &mut state, &mut frontend));
    assert_eq!(
        *frontend.events().last().unwrap(),
        WipeEvent::Aborted(WipeError::Cancelled)
    );
    assert_eq!(storage.write_count(), 0);
}

#[test]
fn device_block_size_must_divide_the_plan() {
    let mut storage = MemoryStorage::new(65536, 8192);
    let task = WipeTask::new(scheme("zero"), Verify::No, 65536, 4096, 0).unwrap();
    let mut state = WipeState::new(0);
    let mut frontend = EventRecorder::new(true);
    assert!(!task.run(&mut storage, &mut state, &mut frontend));
    assert_eq!(
        *frontend.events().last().unwrap(),
        WipeEvent::Fatal(WipeError::InvalidArgument)
    );
    let mut small = MemoryStorage::new(4096, 512);
    let big = WipeTask::new(scheme("zero"), Verify::No, 65536, 4096, 0).unwrap();
    assert!(!big.run(&mut small, &mut state, &mut EventRecorder::new(true)));
}

#[test]
fn resumes_from_recorded_position() {
    let mut storage = MemoryStorage::new(16384, 512);
    let task = WipeTask::new(scheme("one"), Verify::No, 16384, 4096, 0).unwrap();
    let mut state = WipeState::new(0);
    state.position = 8192;
    let mut frontend = EventRecorder::new(true);
    assert!(task.run(&mut storage, &mut state, &mut frontend));
    assert!(storage.data()[..8192].iter().all(|&b| b == 0x00));
    assert!(storage.data()[8192..].iter().all(|&b| b == 0xFF));
    assert_eq!(storage.write_count(), 2);
}

#[test]
fn progress_reports_bytes_since_pass_start() {
    let mut storage = MemoryStorage::new(1 << 20, 512);
    let task = WipeTask::new(scheme("gost"), Verify::No, 1 << 20, 4096, 0).unwrap();
    let mut state = WipeState::new(0);
    let mut frontend = EventRecorder::new(true);
    assert!(task.run(&mut storage, &mut state, &mut frontend));
    let progress: Vec<u64> = frontend
        .events()
        .iter()
        .filter_map(|e| match e {
            WipeEvent::PassProgress(b) => Some(*b),
            _ => None,
        })
        .collect();
    assert_eq!(progress, vec![262144, 524288, 786432, 1048576, 262144, 524288, 786432, 1048576]);
    assert_eq!(state.written, 2 * (1 << 20));
}

#[test]
fn pass_entry_points_refuse_unknown_pass() {
    let mut storage = MemoryStorage::new(8192, 512);
    let task = WipeTask::new(scheme("zero"), Verify::All, 8192, 4096, 0).unwrap();
    let mut state = WipeState::new(1);
    let mut frontend = EventRecorder::new(true);
    assert!(!task.write_pass(1, &mut storage, &mut state, &mut frontend));
    assert_eq!(
        *frontend.events().last().unwrap(),
        WipeEvent::Fatal(WipeError::InvalidArgument)
    );
    assert!(!task.verify_pass(3, &mut storage, &mut state, &mut frontend));
    assert_eq!(
        *frontend.events().last().unwrap(),
        WipeEvent::Fatal(WipeError::InvalidArgument)
    );
    assert_eq!(storage.write_count(), 0);
    assert_eq!(storage.read_count(), 0);
}

#[test]
fn stopped_pass_records_where_it_stopped() {
    let mut storage = MemoryStorage::new(65536, 512);
    storage.fail_writes_at(3 * 4096, u64::MAX);
    let task = WipeTask::new(scheme("one"), Verify::No, 65536, 4096, 0).unwrap();
    let mut state = WipeState::new(0);
    let mut frontend = EventRecorder::new(true);
    assert!(!task.write_pass(0, &mut storage, &mut state, &mut frontend));
    assert_eq!(state.position, 3 * 4096);
    assert_eq!(*frontend.events().last().unwrap(), WipeEvent::Aborted(WipeError::Io));
    assert!(storage.data()[3 * 4096..].iter().all(|&b| b == 0x00));
}
