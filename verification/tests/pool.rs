use prun::expand::Cmd;
use prun::pool::{effective_worker_count, worker_count, Worker};
use prun::queue::WorkQueue;
use prun::sink::{record_line, Outcome};
use prun::task::{Argument, Task};

fn cmd(name: &str) -> Cmd {
    Cmd { command: "echo".to_string(), args: vec![], name: name.to_string() }
}

#[test]
fn requested_count_is_capped_by_the_work() {
    assert_eq!(worker_count(Some(4), 8, 10), 4);
    assert_eq!(worker_count(Some(10), 8, 10), 10);
    assert_eq!(worker_count(Some(20), 8, 10), 10);
    assert_eq!(worker_count(Some(0), 8, 10), 0);
    assert_eq!(worker_count(Some(3), 64, 0), 0);
    assert_eq!(worker_count(Some(usize::MAX), 1, 6), 6);
}

#[test]
fn default_count_is_half_the_processors() {
    assert_eq!(worker_count(None, 8, 10), 4);
    assert_eq!(worker_count(None, 7, 100), 3);
    assert_eq!(worker_count(None, 1, 10), 0);
    assert_eq!(worker_count(None, 0, 10), 0);
    assert_eq!(worker_count(None, 9, 2), 2);
    assert_eq!(worker_count(None, usize::MAX, usize::MAX), usize::MAX / 2);
}

#[test]
fn requested_count_does_not_depend_on_the_processors() {
    for cpus in [0usize, 1, 2, 16, 1024] {
        assert_eq!(worker_count(Some(5), cpus, 9), 5);
        assert_eq!(worker_count(Some(5), cpus, 3), 3);
    }
}

#[test]
fn effective_count_with_a_request() {
    assert_eq!(effective_worker_count(Some(3), 10), 3);
    assert_eq!(effective_worker_count(Some(30), 10), 10);
    assert_eq!(effective_worker_count(Some(2), 0), 0);
}

#[test]
fn effective_count_without_a_request_asks_the_machine() {
    let cpus = num_cpus::get();
    assert_eq!(effective_worker_count(None, usize::MAX), cpus / 2);
    assert_eq!(effective_worker_count(None, 0), 0);
    assert!(effective_worker_count(None, 1) <= 1);
}

#[test]
fn worker_runs_until_the_queue_is_empty() {
    let mut queue = WorkQueue::new();
    queue.extend(vec![cmd("a"), cmd("b")]);
    let mut worker = Worker::new();
    assert!(!worker.is_stopped());

    let work = worker.next(&mut queue).unwrap();
    assert_eq!(work.name, "a");
    assert_eq!(queue.len(), 1);
    let line = worker.finish(&Outcome::Finished { nanos: 2_000_000_000 }).unwrap();
    assert_eq!(line, "a: 2.000000000s\n");

    let work = worker.next(&mut queue).unwrap();
    assert_eq!(work.name, "b");
    let line = worker.finish(&Outcome::SpawnFailed).unwrap();
    assert_eq!(line, "b: spawn failed\n");

    assert!(worker.next(&mut queue).is_none());
    assert!(worker.is_stopped());
}

#[test]
fn busy_worker_takes_nothing() {
    let mut queue = WorkQueue::new();
    queue.extend(vec![cmd("a"), cmd("b")]);
    let mut worker = Worker::new();
    assert!(worker.next(&mut queue).is_some());
    assert!(worker.next(&mut queue).is_none());
    assert_eq!(queue.len(), 1);
    assert!(!worker.is_stopped());
    assert!(worker.finish(&Outcome::WaitFailed).is_some());
    assert_eq!(worker.next(&mut queue).unwrap().name, "b");
}

#[test]
fn stopped_worker_stays_stopped() {
    let mut queue = WorkQueue::new();
    let mut worker = Worker::new();
    assert!(worker.next(&mut queue).is_none());
    assert!(worker.is_stopped());
    queue.extend(vec![cmd("late")]);
    assert!(worker.next(&mut queue).is_none());
    assert_eq!(queue.len(), 1);
    assert!(worker.is_stopped());
}

#[test]
fn worker_without_work_has_nothing_to_report() {
    let mut worker = Worker::new();
    assert!(worker.finish(&Outcome::Finished { nanos: 1 }).is_none());
    assert!(!worker.is_stopped());
    let mut queue = WorkQueue::new();
    assert!(worker.next(&mut queue).is_none());
    assert!(worker.finish(&Outcome::Finished { nanos: 1 }).is_none());
    assert!(worker.is_stopped());
}

#[test]
fn failed_invocation_does_not_stop_the_worker() {
    let mut queue = WorkQueue::new();
    queue.extend(vec![cmd("missing"), cmd("present")]);
    let mut worker = Worker::new();
    let mut lines = Vec::new();
    while let Some(work) = worker.next(&mut queue) {
        let outcome = if work.name == "missing" {
            Outcome::SpawnFailed
        } else {
            Outcome::Finished { nanos: 5 }
        };
        lines.push(worker.finish(&outcome).unwrap());
    }
    assert_eq!(lines, vec!["missing: spawn failed\n", "present: 0.000000005s\n"]);
}

#[test]
fn two_tasks_of_three_on_two_workers_leave_six_records() {
    let task = |values: &[&str]| Task {
        command: "echo".to_string(),
        args: vec![Argument::Choice(values.iter().map(|v| v.to_string()).collect())],
    };
    let tasks = vec![
        ("alpha".to_string(), task(&["1", "2", "3"])),
        ("beta".to_string(), task(&["x", "y", "z"])),
    ];
    let mut queue = WorkQueue::from_tasks(&tasks).unwrap();
    let total = queue.len();
    assert_eq!(total, 6);
    let n = worker_count(Some(2), 8, total);
    assert_eq!(n, 2);

    // Two workers that take turns; the second is slower and finishes its
    // invocation only every other turn.
    let mut workers = vec![Worker::new(), Worker::new()];
    let mut busy = vec![false, false];
    let mut sink = String::new();
    let mut turn = 0u128;
    while workers.iter().any(|w| !w.is_stopped()) {
        for (i, worker) in workers.iter_mut().enumerate() {
            turn += 1;
            if busy[i] {
                if i == 1 && turn % 4 != 0 {
                    continue;
                }
                let line = worker.finish(&Outcome::Finished { nanos: turn * 1_000 }).unwrap();
                sink.push_str(&line);
                busy[i] = false;
            } else if worker.next(&mut queue).is_some() {
                busy[i] = true;
            }
        }
    }
    assert!(queue.is_empty());

    let lines: Vec<&str> = sink.lines().collect();
    assert_eq!(lines.len(), 6);
    let mut seen = Vec::new();
    for line in &lines {
        let (name, duration) = line.rsplit_once(": ").unwrap();
        let seconds = duration.strip_suffix('s').unwrap();
        let (whole, fraction) = seconds.split_once('.').unwrap();
        assert!(!whole.is_empty() && whole.chars().all(|c| c.is_ascii_digit()));
        assert!(fraction.len() == 9 && fraction.chars().all(|c| c.is_ascii_digit()));
        seen.push(name.to_string());
    }
    seen.sort();
    assert_eq!(seen, vec!["alpha 1", "alpha 2", "alpha 3", "beta x", "beta y", "beta z"]);
}

#[test]
fn record_of_a_run_gives_seconds_with_nine_decimals() {
    assert_eq!(
        record_line("t a 1", &Outcome::Finished { nanos: 1_500_000 }),
        "t a 1: 0.001500000s\n"
    );
    assert_eq!(record_line("t", &Outcome::Finished { nanos: 0 }), "t: 0.000000000s\n");
    assert_eq!(
        record_line("t", &Outcome::Finished { nanos: 12_345_678_901 }),
        "t: 12.345678901s\n"
    );
    assert_eq!(
        record_line("t", &Outcome::Finished { nanos: 999_999_999 }),
        "t: 0.999999999s\n"
    );
    assert_eq!(
        record_line("t", &Outcome::Finished { nanos: 1_000_000_000 }),
        "t: 1.000000000s\n"
    );
    assert_eq!(
        record_line("", &Outcome::Finished { nanos: u128::MAX }),
        ": 340282366920938463463374607431.768211455s\n"
    );
}

#[test]
fn record_of_a_failure_names_the_step() {
    assert_eq!(record_line("job 3", &Outcome::SpawnFailed), "job 3: spawn failed\n");
    assert_eq!(record_line("job 3", &Outcome::WaitFailed), "job 3: wait failed\n");
}

#[test]
fn longer_runs_render_as_larger_numbers() {
    let seconds = |nanos: u128| -> (u128, u128) {
        let line = record_line("t", &Outcome::Finished { nanos });
        let text = line.strip_prefix("t: ").unwrap().strip_suffix("s\n").unwrap();
        let (whole, fraction) = text.split_once('.').unwrap();
        (whole.parse().unwrap(), fraction.parse().unwrap())
    };
    let samples = [0u128, 1, 999, 1_000, 999_999_999, 1_000_000_000, 1_000_000_001, 60_000_000_000];
    for pair in samples.windows(2) {
        assert!(seconds(pair[0]) < seconds(pair[1]));
    }
    for nanos in samples {
        let (whole, fraction) = seconds(nanos);
        assert_eq!(whole * 1_000_000_000 + fraction, nanos);
    }
}
