use mmtk::plan::{gc_scheduler, CLOSURE_STAGE, PREPARE_STAGE};
use mmtk::work_bucket::{WorkBucket, WorkScheduler, DEFAULT_PRIORITY};

#[test]
fn gated_stage_waits_for_drain() {
    let mut s: WorkScheduler<&'static str> = gc_scheduler();
    for item in ["p1", "p2", "p3"] {
        s.add_with_priority(PREPARE_STAGE, DEFAULT_PRIORITY, item);
    }
    s.add_with_priority(CLOSURE_STAGE, DEFAULT_PRIORITY, "t1");
    assert_eq!(s.poll(), None);
    assert!(s.update_buckets());
    assert!(!s.bucket(CLOSURE_STAGE).is_activated());
    let mut seen = Vec::new();
    for k in 0..3 {
        assert!(!s.bucket(CLOSURE_STAGE).is_activated());
        seen.push(s.poll().unwrap());
        if k < 2 {
            assert!(!s.update_buckets());
        }
    }
    assert!(s.bucket(PREPARE_STAGE).is_drained());
    seen.sort();
    assert_eq!(seen, vec!["p1", "p2", "p3"]);
    assert_eq!(s.poll(), None);
    assert!(s.update_buckets());
    assert!(s.bucket(CLOSURE_STAGE).is_activated());
    assert_eq!(s.poll(), Some("t1"));
}

#[test]
fn bucket_polls_greatest_priority_first() {
    let mut b: WorkBucket<u32> = WorkBucket::new(false);
    b.add_with_priority(5, 1);
    b.add_with_priority(10, 2);
    b.add_with_priority(10, 3);
    b.add(4);
    assert_eq!(b.poll(), None);
    b.activate();
    assert_eq!(b.poll(), Some(4));
    assert_eq!(b.poll(), Some(2));
    assert_eq!(b.poll(), Some(3));
    assert_eq!(b.poll(), Some(1));
    assert_eq!(b.poll(), None);
    assert!(b.is_drained());
    b.deactivate();
    assert!(!b.is_activated());
    assert_eq!(b.active_priority(), usize::MAX);
}

#[test]
fn open_condition_only_when_set() {
    let mut b: WorkBucket<u32> = WorkBucket::new(false);
    assert!(!b.update(true));
    b.set_open_condition(vec![0]);
    assert!(!b.update(false));
    assert!(b.update(true));
    assert!(b.is_activated());
    assert!(!b.update(true));
    assert_eq!(b.open_condition(), Some(&vec![0]));
}
