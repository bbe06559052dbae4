use titan_count::ac_parallel::AcWorkQueue;
use titan_count::ac_parallel_v2::AcWorkQueue as AcWorkQueueV2;
use titan_count::ac_term::AcWorkDispenser;
use titan_count::asymmetric_handoff::WorkQueue;
use titan_count::asymmetric_handoff_v2::SieveQueue;
use titan_count::asymmetric_handoff_v3::SieveQueue as TaperedSieveQueue;
use titan_count::asymmetric_handoff_v4::{AsymmetricSieveQueue, CoreClass};

#[test]
fn test_ac_work_queue_coverage() {
    let y = 100_000;
    let mut queue = AcWorkQueue::new(y);
    let mut covered = 1;

    while let Some((start, end)) = queue.claim_chunk() {
        assert_eq!(start, covered);
        covered = end;
    }

    assert_eq!(covered, y + 1);
}

#[test]
fn ac_work_queue_v2_guided_steps() {
    let y = 100_000u64;
    let mut queue = AcWorkQueueV2::new(y);
    // remaining = 100000 -> step = 100000 / 64 = 1562
    assert_eq!(queue.claim_chunk(), Some((1, 1563)));
    let mut covered = 1563;
    let mut last_width = 0;
    while let Some((start, end)) = queue.claim_chunk() {
        assert_eq!(start, covered);
        last_width = end - start;
        covered = end;
    }
    assert_eq!(covered, y + 1);
    assert!(last_width <= 16);
    assert_eq!(queue.claim_chunk(), None);
}

#[test]
fn ac_work_queue_small_range_is_one_chunk() {
    let mut queue = AcWorkQueue::new(10);
    assert_eq!(queue.claim_chunk(), Some((1, 11)));
    assert_eq!(queue.claim_chunk(), None);
}

#[test]
fn test_ac_work_dispenser_partition() {
    let y = 10_000;
    let mut dispenser = AcWorkDispenser::new(y);
    let mut total_covered = 0;
    let mut prev_end = 1;
    while let Some((start, end)) = dispenser.claim_chunk() {
        assert_eq!(start, prev_end);
        assert!(end > start);
        total_covered += end - start;
        prev_end = end;
    }
    assert_eq!(prev_end, y + 1);
    assert_eq!(total_covered, y);
}

#[test]
fn ac_work_dispenser_dense_then_sparse() {
    // dense head ends at max(2000 / 20, 64) = 100
    let mut dispenser = AcWorkDispenser::new(2000);
    assert_eq!(dispenser.claim_chunk(), Some((1, 65)));
    assert_eq!(dispenser.claim_chunk(), Some((65, 129)));
    assert_eq!(dispenser.claim_chunk(), Some((129, 385)));
}

#[test]
fn test_work_queue_asymmetric_batching() {
    let total = 232_480;
    let mut queue = WorkQueue::new(total);

    // A55 claims 16
    let chunk1 = queue.claim(16).unwrap();
    assert_eq!(chunk1, (0, 16));

    // A78 claims 64
    let chunk2 = queue.claim(64).unwrap();
    assert_eq!(chunk2, (16, 80));

    assert_eq!(queue.remaining(), total - 80);
}

#[test]
fn work_queue_exhaustion_sequential() {
    let total = 1000;
    let mut queue = WorkQueue::new(total);
    let mut count = 0;
    let mut turn = 0u64;
    loop {
        let batch = if turn % 3 == 0 { 64 } else { 16 };
        turn += 1;
        match queue.claim(batch) {
            Some((start, end)) => count += end - start,
            None => break,
        }
    }
    assert_eq!(count, total, "Every segment must be claimed exactly once");
    assert_eq!(queue.remaining(), 0);
}

#[test]
fn test_sieve_queue_claim() {
    let mut q = SieveQueue::new(100);
    let c1 = q.claim(16).unwrap();
    assert_eq!(c1, (0, 16));
    let c2 = q.claim(64).unwrap();
    assert_eq!(c2, (16, 80));
    let c3 = q.claim(64).unwrap();
    assert_eq!(c3, (80, 100));
    assert!(q.claim(64).is_none());
}

#[test]
fn tapered_sieve_queue_shrinks_near_the_end() {
    let mut q = TaperedSieveQueue::new(1000);
    assert_eq!(q.claim(64), Some((0, 64)));
    // 936 remaining: still the preferred batch
    assert_eq!(q.claim(16), Some((64, 80)));
    let mut q = TaperedSieveQueue::new(100);
    // 100 remaining < 512: clamp(100 / 8, 1, 8) = 8
    assert_eq!(q.claim(64), Some((0, 8)));
    let mut q = TaperedSieveQueue::new(5);
    // clamp(5 / 8, 1, 8) = 1
    assert_eq!(q.claim(64), Some((0, 1)));
}

#[test]
fn test_asymmetric_sieve_queue_claim() {
    let mut queue = AsymmetricSieveQueue::new(1000);
    let (start_big, end_big) = queue.claim(CoreClass::Big).unwrap();
    assert_eq!(start_big, 0);
    assert_eq!(end_big, 64);

    let (start_lit, end_lit) = queue.claim(CoreClass::Little).unwrap();
    assert_eq!(start_lit, 64);
    assert_eq!(end_lit, 80);
}

#[test]
fn test_tail_tapering() {
    let mut queue = AsymmetricSieveQueue::new(10);
    let (s, e) = queue.claim(CoreClass::Little).unwrap();
    assert_eq!(s, 0);
    assert_eq!(e, 1); // Tapered to 1
}

#[test]
fn asymmetric_queue_big_core_tail() {
    let mut queue = AsymmetricSieveQueue::new(100);
    // 100 remaining: clamp(100 / 4, 8, 32) = 25
    assert_eq!(queue.claim(CoreClass::Big), Some((0, 25)));
    assert_eq!(queue.remaining(), 75);
    let mut queue = AsymmetricSieveQueue::new(3);
    // 3 remaining: min(3, 2) = 2
    assert_eq!(queue.claim(CoreClass::Big), Some((0, 2)));
    assert_eq!(queue.claim(CoreClass::Big), Some((2, 3)));
    assert_eq!(queue.claim(CoreClass::Big), None);
}
