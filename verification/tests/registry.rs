use orbitnav_core::jobs::{JobState, JobTable, VolumeStamp};
use orbitnav_core::registry::Registry;

#[test]
fn handles_start_at_one_and_are_never_reused() {
    let mut r: Registry<&str> = Registry::new();
    assert_eq!(r.next_handle(), 1);
    let a = r.create("a");
    let b = r.create("b");
    assert_eq!((a, b), (1, 2));
    assert_eq!(r.free(a), Some("a"));
    assert_eq!(r.free(a), None, "freeing twice is not an error");
    let c = r.create("c");
    assert_eq!(c, 3);
    assert_eq!(r.get(a), None);
    assert_eq!(r.get(b), Some(&"b"));
}

#[test]
fn a_new_volume_is_generation_one_and_publishing_bumps_it() {
    let mut r: Registry<u32> = Registry::new();
    let v = r.create(10);
    assert_eq!(r.generation(v), 1);
    assert_eq!(r.stamp(v), Some(VolumeStamp { id: 1, generation: 1 }));
    assert_eq!(r.put(v, 11, true), Some(10));
    assert_eq!(r.generation(v), 2);
    assert_eq!(r.put(v, 12, false), Some(11));
    assert_eq!(r.generation(v), 2, "a finished derive is not a new publication");
    assert_eq!(r.get(v), Some(&12));
}

#[test]
fn an_unknown_handle_answers_inert_values() {
    let mut r: Registry<u32> = Registry::new();
    assert_eq!(r.generation(7), 0);
    assert_eq!(r.stamp(7), None);
    assert_eq!(r.put(7, 1, true), None);
    assert_eq!(r.get(7), None);
}

#[test]
fn a_result_from_before_a_publication_reads_stale() {
    let mut r: Registry<u32> = Registry::new();
    let mut t: JobTable<u32, u32> = JobTable::new();
    let v = r.create(0);
    let before = r.stamp(v).unwrap();
    let job = t.enqueue(before, 1);
    let (q, run) = t.pickup().unwrap();
    assert!(run);
    t.finish(q.id, Some(2));
    assert_eq!(t.poll(job, r.stamp(v)), JobState::Ready);
    r.put(v, 1, true);
    assert_eq!(t.poll(job, r.stamp(v)), JobState::Stale);
}
