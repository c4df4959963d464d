use orbitnav_core::jobs::{
    default_threads_for, job_state_code, JobId, JobState, JobTable, VolumeStamp,
};

fn stamp() -> VolumeStamp {
    VolumeStamp {
        id: 1,
        generation: 1,
    }
}

/// What one worker does until the queue is empty: pick up, run, file. The work doubles a number.
fn drain(t: &mut JobTable<u32, u32>) -> Vec<JobId> {
    let mut ran = Vec::new();
    while let Some((job, run)) = t.pickup() {
        if run {
            ran.push(job.id);
            assert!(t.finish(job.id, Some(job.work * 2)));
        }
    }
    ran
}

fn settle(t: &mut JobTable<u32, u32>, job: JobId) -> JobState {
    drain(t);
    t.poll(job, None)
}

#[test]
fn ids_are_never_reused() {
    let mut t: JobTable<u32, u32> = JobTable::new();
    let mut seen = std::collections::HashSet::new();
    for k in 0..50 {
        let id = t.enqueue(stamp(), k);
        assert!(seen.insert(id), "id {id} was handed out twice");
        settle(&mut t, id);
        let _ = t.take(id);
    }
}

#[test]
fn a_second_take_gets_nothing() {
    let mut t: JobTable<u32, u32> = JobTable::new();
    let job = t.enqueue(stamp(), 21);
    settle(&mut t, job);
    assert!(t.take(job).is_some());
    assert!(t.take(job).is_none());
    assert_eq!(t.poll(job, None), JobState::Unknown);
}

#[test]
fn a_result_about_an_older_generation_reads_stale() {
    let mut t: JobTable<u32, u32> = JobTable::new();
    let job = t.enqueue(stamp(), 1);
    settle(&mut t, job);
    let newer = VolumeStamp {
        id: 1,
        generation: 2,
    };
    assert_eq!(t.poll(job, Some(newer)), JobState::Stale);
    assert_eq!(t.poll(job, Some(stamp())), JobState::Ready);
}

#[test]
fn cancelling_a_queued_job_stops_it_running() {
    let mut t: JobTable<u32, u32> = JobTable::new();
    let mut ids = Vec::new();
    for k in 0..40 {
        ids.push(t.enqueue(stamp(), k));
    }
    let victim = *ids.last().unwrap();
    t.cancel(victim);
    let ran = drain(&mut t);
    assert!(!ran.contains(&victim));
    for id in ids {
        let s = t.poll(id, None);
        if id == victim {
            assert!(matches!(
                s,
                JobState::Cancelled | JobState::Ready | JobState::Unknown
            ));
        } else {
            assert_eq!(s, JobState::Ready);
        }
    }
}

#[test]
fn dropping_a_volume_forgets_its_jobs() {
    let mut t: JobTable<u32, u32> = JobTable::new();
    let job = t.enqueue(stamp(), 3);
    t.drop_volume(1);
    assert_eq!(t.poll(job, None), JobState::Unknown);
}

#[test]
fn stats_report_the_pool_size() {
    let t: JobTable<u32, u32> = JobTable::new();
    assert_eq!(t.stats(3)[0], 3);
}

#[test]
fn the_first_id_is_one_and_ids_count_up() {
    let mut t: JobTable<u32, u32> = JobTable::new();
    assert_eq!(t.enqueue(stamp(), 0), 1);
    assert_eq!(t.enqueue(stamp(), 0), 2);
    assert_eq!(t.poll(3, None), JobState::Unknown);
    assert_eq!(t.poll(0, None), JobState::Unknown);
}

#[test]
fn a_worker_takes_the_newest_job_first() {
    let mut t: JobTable<u32, u32> = JobTable::new();
    let a = t.enqueue(stamp(), 10);
    let b = t.enqueue(stamp(), 20);
    let (job, run) = t.pickup().unwrap();
    assert_eq!(job.id, b);
    assert_eq!(job.work, 20);
    assert!(run);
    assert_eq!(t.poll(b, None), JobState::Running);
    assert_eq!(t.poll(a, None), JobState::Pending);
    assert_eq!(t.queued(), 1);
    assert!(t.finish(b, Some(40)));
    assert_eq!(t.poll(b, None), JobState::Ready);
    assert_eq!(t.take(b), Some(40));
}

#[test]
fn a_cancel_during_the_run_wins() {
    let mut t: JobTable<u32, u32> = JobTable::new();
    let job = t.enqueue(stamp(), 5);
    let (q, run) = t.pickup().unwrap();
    assert!(run);
    t.cancel(job);
    assert!(!t.finish(q.id, Some(10)), "the result of a cancelled run is dropped");
    assert_eq!(t.poll(job, None), JobState::Cancelled);
    assert_eq!(t.take(job), None);
    assert_eq!(t.poll(job, None), JobState::Cancelled);
}

#[test]
fn a_cancelled_job_is_exactly_cancelled_and_never_picked_up() {
    let mut t: JobTable<u32, u32> = JobTable::new();
    let a = t.enqueue(stamp(), 1);
    let b = t.enqueue(stamp(), 2);
    t.cancel(a);
    assert_eq!(t.poll(a, None), JobState::Cancelled);
    assert_eq!(t.queued(), 1);
    let ran = drain(&mut t);
    assert_eq!(ran, vec![b]);
    assert_eq!(t.poll(a, None), JobState::Cancelled);
}

#[test]
fn a_failed_run_reads_failed() {
    let mut t: JobTable<u32, u32> = JobTable::new();
    let job = t.enqueue(stamp(), 5);
    let (q, _) = t.pickup().unwrap();
    assert!(t.finish(q.id, None));
    assert_eq!(t.poll(job, None), JobState::Failed);
    assert_eq!(t.take(job), None, "only a ready job has a result to take");
}

#[test]
fn a_job_dropped_while_queued_is_skipped_by_the_worker() {
    let mut t: JobTable<u32, u32> = JobTable::new();
    let other = VolumeStamp {
        id: 2,
        generation: 7,
    };
    let a = t.enqueue(stamp(), 1);
    let b = t.enqueue(other, 2);
    let c = t.enqueue(stamp(), 3);
    t.drop_volume(1);
    assert_eq!(t.queued(), 1);
    assert_eq!(t.poll(a, None), JobState::Unknown);
    assert_eq!(t.poll(c, None), JobState::Unknown);
    assert_eq!(t.poll(b, None), JobState::Pending);
    assert_eq!(drain(&mut t), vec![b]);
    assert_eq!(t.poll(b, Some(other)), JobState::Ready);
}

#[test]
fn stats_count_queued_running_and_ready() {
    let mut t: JobTable<u32, u32> = JobTable::new();
    for k in 0..5 {
        t.enqueue(stamp(), k);
    }
    let (first, _) = t.pickup().unwrap();
    let (second, _) = t.pickup().unwrap();
    assert_eq!(t.stats(2), [2, 3, 2, 0]);
    t.finish(first.id, Some(0));
    assert_eq!(t.stats(2), [2, 3, 1, 1]);
    t.finish(second.id, None);
    assert_eq!(t.stats(2), [2, 3, 0, 1]);
}

#[test]
fn an_empty_queue_gives_the_worker_nothing() {
    let mut t: JobTable<u32, u32> = JobTable::new();
    assert!(t.pickup().is_none());
    assert_eq!(t.stats(1), [1, 0, 0, 0]);
}

#[test]
fn job_states_have_their_codes() {
    let all = [
        JobState::Unknown,
        JobState::Pending,
        JobState::Running,
        JobState::Ready,
        JobState::Failed,
        JobState::Cancelled,
        JobState::Stale,
    ];
    for (k, s) in all.iter().enumerate() {
        assert_eq!(job_state_code(*s), k as i64);
    }
}

#[test]
fn the_default_size_leaves_a_core_and_caps_at_four() {
    assert_eq!(default_threads_for(0), 1);
    assert_eq!(default_threads_for(1), 1);
    assert_eq!(default_threads_for(2), 1);
    assert_eq!(default_threads_for(3), 2);
    assert_eq!(default_threads_for(4), 3);
    assert_eq!(default_threads_for(5), 4);
    assert_eq!(default_threads_for(64), 4);
    for cores in 0..100 {
        let n = default_threads_for(cores);
        assert!((1..=4).contains(&n), "got {n}");
    }
}
