use croner::queue::{JobQueue, ScheduledJob};

#[test]
fn pops_in_order_of_deadline() {
    let mut q = JobQueue::new();
    let whens = [50u64, 10, 40, 10, 90, 0, 70, 30, 20, 60, 80, u64::MAX, 5];
    for (job, when) in whens.iter().enumerate() {
        q.push(ScheduledJob { when: *when, job });
        assert_eq!(q.len(), job + 1);
    }
    let mut sorted = whens.to_vec();
    sorted.sort();
    let mut jobs = Vec::new();
    for want in sorted {
        assert_eq!(q.peek().unwrap().when, want);
        let got = q.pop().unwrap();
        assert_eq!(got.when, want);
        assert_eq!(whens[got.job], want);
        jobs.push(got.job);
    }
    jobs.sort();
    assert_eq!(jobs, (0..whens.len()).collect::<Vec<_>>());
    assert_eq!(q.pop(), None);
    assert_eq!(q.peek(), None);
    assert_eq!(q.len(), 0);
}

#[test]
fn pushes_and_pops_may_alternate() {
    let mut q = JobQueue::new();
    q.push(ScheduledJob { when: 3, job: 0 });
    q.push(ScheduledJob { when: 1, job: 1 });
    assert_eq!(q.pop(), Some(ScheduledJob { when: 1, job: 1 }));
    q.push(ScheduledJob { when: 2, job: 2 });
    q.push(ScheduledJob { when: 4, job: 3 });
    assert_eq!(q.pop(), Some(ScheduledJob { when: 2, job: 2 }));
    assert_eq!(q.pop(), Some(ScheduledJob { when: 3, job: 0 }));
    q.push(ScheduledJob { when: 0, job: 4 });
    assert_eq!(q.pop(), Some(ScheduledJob { when: 0, job: 4 }));
    assert_eq!(q.pop(), Some(ScheduledJob { when: 4, job: 3 }));
    assert_eq!(q.pop(), None);
}

#[test]
fn clear_empties_the_queue() {
    let mut q = JobQueue::new();
    for job in 0..10 {
        q.push(ScheduledJob { when: 10 - job as u64, job });
    }
    q.clear();
    assert_eq!(q.len(), 0);
    assert_eq!(q.pop(), None);
    q.push(ScheduledJob { when: 1, job: 1 });
    assert_eq!(q.len(), 1);
}

#[test]
fn equal_deadlines_all_come_out() {
    let mut q = JobQueue::new();
    for job in 0..20 {
        q.push(ScheduledJob { when: 7, job });
    }
    let mut jobs = Vec::new();
    while let Some(e) = q.pop() {
        assert_eq!(e.when, 7);
        jobs.push(e.job);
    }
    jobs.sort();
    assert_eq!(jobs, (0..20).collect::<Vec<_>>());
}
