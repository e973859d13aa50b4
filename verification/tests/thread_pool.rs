use http_server::thread_pool::Claim;
use http_server::thread_pool::PoolError;
use http_server::thread_pool::ThreadPool;
use http_server::thread_pool::WorkerState;

fn pool(n: usize) -> ThreadPool<u32> {
    match ThreadPool::new(n) {
        Ok(p) => p,
        Err(e) => panic!("unexpected error {:?}", e),
    }
}

fn run(p: &mut ThreadPool<u32>, worker: usize) -> u32 {
    match p.claim(worker) {
        Ok(Claim::Run(job)) => job,
        _ => panic!("expected a job"),
    }
}

#[test]
fn pool_without_workers_is_refused() {
    match ThreadPool::<u32>::new(0) {
        Err(PoolError::NoWorkers) => {}
        _ => panic!("expected the construction to fail"),
    }
}

#[test]
fn new_pool_is_open_and_idle() {
    let p = pool(3);
    assert_eq!(p.size(), 3);
    assert_eq!(p.queued(), 0);
    assert!(p.is_open());
    assert!(!p.is_finished());
    for w in 0..3 {
        assert!(p.in_state(w, WorkerState::Idle));
    }
    assert!(!p.in_state(3, WorkerState::Idle));
}

#[test]
fn jobs_are_claimed_in_order_of_submission() {
    let mut p = pool(2);
    for job in [10, 20, 30] {
        assert_eq!(p.execute(job), Ok(()));
    }
    assert_eq!(p.queued(), 3);
    assert_eq!(run(&mut p, 1), 10);
    assert_eq!(run(&mut p, 0), 20);
    assert!(p.in_state(0, WorkerState::Busy));
    assert!(p.in_state(1, WorkerState::Busy));
    assert_eq!(p.finish(1), Ok(()));
    assert_eq!(run(&mut p, 1), 30);
    assert_eq!(p.queued(), 0);
}

#[test]
fn idle_worker_waits_while_pool_is_open() {
    let mut p = pool(1);
    assert!(matches!(p.claim(0), Ok(Claim::Wait)));
    assert!(p.in_state(0, WorkerState::Idle));
}

#[test]
fn busy_or_unknown_worker_cannot_claim() {
    let mut p = pool(1);
    p.execute(1).unwrap();
    p.execute(2).unwrap();
    assert_eq!(run(&mut p, 0), 1);
    assert!(matches!(p.claim(0), Err(PoolError::NotIdle)));
    assert!(matches!(p.claim(7), Err(PoolError::NotIdle)));
    assert_eq!(p.queued(), 1);
}

#[test]
fn only_busy_worker_finishes_or_crashes() {
    let mut p = pool(2);
    assert_eq!(p.finish(0), Err(PoolError::NotBusy));
    assert_eq!(p.crash(0), Err(PoolError::NotBusy));
    assert_eq!(p.finish(5), Err(PoolError::NotBusy));
    p.execute(1).unwrap();
    assert_eq!(run(&mut p, 0), 1);
    assert_eq!(p.crash(0), Ok(()));
    assert!(p.in_state(0, WorkerState::Crashed));
    assert!(matches!(p.claim(0), Err(PoolError::NotIdle)));
    assert_eq!(p.finish(0), Err(PoolError::NotBusy));
}

#[test]
fn closed_pool_takes_no_job() {
    let mut p = pool(1);
    p.execute(1).unwrap();
    p.close();
    assert!(!p.is_open());
    assert_eq!(p.execute(2), Err(PoolError::Closed));
    assert_eq!(p.queued(), 1);
}

#[test]
fn queued_jobs_run_after_close() {
    let mut p = pool(2);
    for job in 0..5 {
        p.execute(job).unwrap();
    }
    p.close();
    let mut ran = Vec::new();
    let mut worker = 0;
    loop {
        match p.claim(worker) {
            Ok(Claim::Run(job)) => {
                assert!(!p.in_state(0, WorkerState::Stopped));
                assert!(!p.in_state(1, WorkerState::Stopped));
                ran.push(job);
                p.finish(worker).unwrap();
            }
            Ok(Claim::Exit) => {
                assert_eq!(ran.len(), 5);
                if p.is_finished() {
                    break;
                }
            }
            Ok(Claim::Wait) => panic!("a closed pool lets no worker wait"),
            Err(e) => panic!("unexpected error {:?}", e),
        }
        worker = 1 - worker;
        if p.in_state(worker, WorkerState::Stopped) {
            worker = 1 - worker;
        }
    }
    assert_eq!(ran, vec![0, 1, 2, 3, 4]);
    assert!(p.in_state(0, WorkerState::Stopped));
    assert!(p.in_state(1, WorkerState::Stopped));
    assert!(p.is_finished());
}

#[test]
fn more_jobs_than_workers_all_complete_once() {
    let workers = 3;
    let jobs = 10;
    let mut p = pool(workers);
    for job in 0..jobs {
        p.execute(job).unwrap();
    }
    let mut ran = Vec::new();
    let mut busy: Vec<usize> = Vec::new();
    while ran.len() < jobs as usize {
        for w in 0..workers {
            if p.in_state(w, WorkerState::Idle) {
                if let Ok(Claim::Run(job)) = p.claim(w) {
                    ran.push(job);
                    busy.push(w);
                }
            }
        }
        assert!(busy.len() <= workers);
        for w in busy.drain(..) {
            p.finish(w).unwrap();
        }
    }
    assert_eq!(ran, (0..jobs).collect::<Vec<u32>>());
    assert!(matches!(p.claim(0), Ok(Claim::Wait)));
}

#[test]
fn crashed_workers_shrink_the_pool() {
    let mut p = pool(2);
    p.execute(1).unwrap();
    p.execute(2).unwrap();
    p.execute(3).unwrap();
    assert_eq!(run(&mut p, 0), 1);
    p.crash(0).unwrap();
    assert_eq!(run(&mut p, 1), 2);
    p.crash(1).unwrap();
    assert!(p.is_finished());
    assert_eq!(p.queued(), 1);
    assert_eq!(p.size(), 2);
}
