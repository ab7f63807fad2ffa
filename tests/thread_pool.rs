use std::collections::VecDeque;

use rserv::thread_pool::worker::{on_receive, Action, Message, WorkerState};
use rserv::thread_pool::{worker_count, Shutdown, ShutdownStep};

/// Runs the pool protocol on one thread: `jobs` are submitted, shutdown
/// begins, and workers take messages in turn until each has exited. Each job
/// is called with its index; what it returns is ignored, as the pool ignores
/// the outcome of a job. Returns the log the jobs wrote and the number of
/// `Quit` messages each worker took.
fn drive(size: i32, jobs: Vec<Box<dyn FnOnce(&mut Vec<usize>) -> Result<(), String>>>) -> (Vec<usize>, Vec<usize>) {
    let n = worker_count(size).expect("pool size must be positive");
    let mut queue: VecDeque<Message<Box<dyn FnOnce(&mut Vec<usize>) -> Result<(), String>>>> =
        VecDeque::new();
    for job in jobs {
        queue.push_back(Message::Execute(job));
    }
    let mut shutdown = Shutdown::new(n);
    let mut joins = Vec::new();
    loop {
        match shutdown.next_step() {
            ShutdownStep::SendQuit => queue.push_back(Message::Quit),
            ShutdownStep::Join(i) => joins.push(i),
            ShutdownStep::Done => break,
        }
    }
    assert_eq!(joins, (0..n).collect::<Vec<usize>>());

    let mut states = vec![WorkerState::Running; n];
    let mut quits = vec![0usize; n];
    let mut log = Vec::new();
    let mut turn = 0usize;
    while states.iter().any(|s| *s == WorkerState::Running) {
        let w = turn % n;
        turn += 1;
        if states[w] == WorkerState::Stopped {
            continue;
        }
        match on_receive(queue.pop_front()) {
            Action::Run(job) => {
                let _ = job(&mut log);
            }
            Action::Exit => {
                states[w] = WorkerState::Stopped;
                quits[w] += 1;
            }
            Action::Fail => panic!("queue closed before every worker quit"),
        }
    }
    assert!(queue.is_empty());
    (log, quits)
}

#[test]
fn execute() {
    let jobs: Vec<Box<dyn FnOnce(&mut Vec<usize>) -> Result<(), String>>> =
        (0..10).map(|_| Box::new(|_: &mut Vec<usize>| Ok(())) as Box<dyn FnOnce(&mut Vec<usize>) -> Result<(), String>>).collect();
    let (_, quits) = drive(1, jobs);
    assert_eq!(quits, vec![1]);
}

#[test]
fn single_worker_runs_jobs_in_submission_order() {
    let jobs: Vec<Box<dyn FnOnce(&mut Vec<usize>) -> Result<(), String>>> = (0..10)
        .map(|i| {
            Box::new(move |log: &mut Vec<usize>| {
                log.push(i);
                Ok(())
            }) as Box<dyn FnOnce(&mut Vec<usize>) -> Result<(), String>>
        })
        .collect();
    let (log, quits) = drive(1, jobs);
    assert_eq!(log, (0..10).collect::<Vec<usize>>());
    assert_eq!(quits, vec![1]);
}

#[test]
fn many_noop_jobs_then_teardown_ends() {
    let jobs: Vec<Box<dyn FnOnce(&mut Vec<usize>) -> Result<(), String>>> = (0..1000)
        .map(|_| Box::new(|_: &mut Vec<usize>| Ok(())) as Box<dyn FnOnce(&mut Vec<usize>) -> Result<(), String>>)
        .collect();
    let (log, quits) = drive(4, jobs);
    assert!(log.is_empty());
    assert_eq!(quits, vec![1, 1, 1, 1]);
}

#[test]
fn failing_job_does_not_stop_worker() {
    let jobs: Vec<Box<dyn FnOnce(&mut Vec<usize>) -> Result<(), String>>> = vec![
        Box::new(|log: &mut Vec<usize>| {
            log.push(0);
            Ok(())
        }),
        Box::new(|_: &mut Vec<usize>| Err(String::from("job failed"))),
        Box::new(|log: &mut Vec<usize>| {
            log.push(2);
            Ok(())
        }),
    ];
    let (log, quits) = drive(1, jobs);
    assert_eq!(log, vec![0, 2]);
    assert_eq!(quits, vec![1]);
}

#[test]
fn every_job_runs_once_across_workers() {
    let jobs: Vec<Box<dyn FnOnce(&mut Vec<usize>) -> Result<(), String>>> = (0..7)
        .map(|i| {
            Box::new(move |log: &mut Vec<usize>| {
                log.push(i);
                Ok(())
            }) as Box<dyn FnOnce(&mut Vec<usize>) -> Result<(), String>>
        })
        .collect();
    let (log, quits) = drive(3, jobs);
    assert_eq!(log, (0..7).collect::<Vec<usize>>());
    assert_eq!(quits, vec![1, 1, 1]);
}

#[test]
fn worker_count_rejects_non_positive() {
    assert_eq!(worker_count(0), None);
    assert_eq!(worker_count(-3), None);
    assert_eq!(worker_count(i32::MIN), None);
    assert_eq!(worker_count(1), Some(1));
    assert_eq!(worker_count(16), Some(16));
    assert_eq!(worker_count(i32::MAX), Some(i32::MAX as usize));
}

#[test]
fn shutdown_sends_quits_then_joins_in_order() {
    let mut s = Shutdown::new(3);
    let mut steps = Vec::new();
    for _ in 0..8 {
        steps.push(s.next_step());
    }
    assert_eq!(
        steps,
        vec![
            ShutdownStep::SendQuit,
            ShutdownStep::SendQuit,
            ShutdownStep::SendQuit,
            ShutdownStep::Join(0),
            ShutdownStep::Join(1),
            ShutdownStep::Join(2),
            ShutdownStep::Done,
            ShutdownStep::Done,
        ]
    );
    let mut empty = Shutdown::new(0);
    assert_eq!(empty.next_step(), ShutdownStep::Done);
}

#[test]
fn on_receive_decides_each_message() {
    assert!(matches!(on_receive(Some(Message::Execute(7u8))), Action::Run(7)));
    assert!(matches!(on_receive::<u8>(Some(Message::Quit)), Action::Exit));
    assert!(matches!(on_receive::<u8>(None), Action::Fail));
}
