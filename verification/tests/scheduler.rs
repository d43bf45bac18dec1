use rustypipe::backends::{BackendKind, ProcessEvent};
use rustypipe::pipeline::{Pipeline, TaskDef};
use rustypipe::runner::{Runner, RunnerStep};
use rustypipe::scheduler::{Dispatch, Outcome, Scheduler, Verdict};
use rustypipe::validate::ValidationError;

fn task(name: &str, deps: &[&str], run: &str) -> TaskDef {
    TaskDef {
        name: name.to_string(),
        depends_on: deps.iter().map(|d| d.to_string()).collect(),
        run: run.to_string(),
        retries: None,
        timeout: None,
        backend: None,
        cache_key: None,
        continue_on_fail: None,
    }
}

fn pipeline(tasks: Vec<TaskDef>, concurrency: Option<usize>, stop_on_fail: Option<bool>) -> Pipeline {
    Pipeline { name: Some("p".to_string()), concurrency, stop_on_fail, tasks }
}

fn exited(stdout: &str, code: i32) -> Outcome {
    Outcome::Exited { stdout: stdout.to_string(), stderr: String::new(), code: Some(code) }
}

fn errored() -> Outcome {
    Outcome::Errored { message: "local backend timed out after 1s".to_string() }
}

fn drain(s: &mut Scheduler) -> Vec<Dispatch> {
    let mut jobs = Vec::new();
    while let Some(job) = s.next_task() {
        jobs.push(job);
    }
    jobs
}

#[test]
fn linear_chain_runs_in_order_and_sees_the_output() {
    let p = pipeline(
        vec![task("a", &[], "echo hello"), task("b", &["a"], "echo {{a.output}} world")],
        None,
        None,
    );
    let mut s = Scheduler::new(p, vec![]).unwrap();
    let first = drain(&mut s);
    assert_eq!(first.len(), 1);
    assert_eq!(first[0].task, "a");
    assert_eq!(first[0].command, "echo hello");
    assert_eq!(s.in_flight(), 1);
    assert_eq!(s.complete(&first[0], exited("hello\n", 0)), Verdict::Continue);
    let second = drain(&mut s);
    assert_eq!(second.len(), 1);
    assert_eq!(second[0].task, "b");
    assert_eq!(second[0].command, "echo hello world");
    assert_eq!(s.complete(&second[0], exited("hello world\n", 0)), Verdict::Continue);
    assert!(drain(&mut s).is_empty());
    assert_eq!(s.in_flight(), 0);
    let names: Vec<&str> = s.reports().iter().map(|r| r.task.as_str()).collect();
    assert_eq!(names, vec!["a", "b"]);
    assert_eq!(s.reports()[1].stdout, "hello world\n");
    assert_eq!(s.reports()[1].command, "echo hello world");
    assert_eq!(s.reports()[1].exit_code, Some(0));
}

#[test]
fn diamond_runs_the_middle_tasks_together_and_the_last_alone() {
    let p = pipeline(
        vec![
            task("a", &[], "echo a"),
            task("b", &["a"], "echo b"),
            task("c", &["a"], "echo c"),
            task("d", &["b", "c"], "echo d"),
        ],
        Some(2),
        None,
    );
    let mut s = Scheduler::new(p, vec![]).unwrap();
    let first = drain(&mut s);
    assert_eq!(first.iter().map(|j| j.task.as_str()).collect::<Vec<_>>(), vec!["a"]);
    s.complete(&first[0], exited("a\n", 0));
    let middle = drain(&mut s);
    let mut names: Vec<&str> = middle.iter().map(|j| j.task.as_str()).collect();
    names.sort();
    assert_eq!(names, vec!["b", "c"]);
    assert_eq!(s.in_flight(), 2);
    s.complete(&middle[0], exited("x\n", 0));
    assert!(drain(&mut s).is_empty());
    s.complete(&middle[1], exited("y\n", 0));
    let last = drain(&mut s);
    assert_eq!(last.iter().map(|j| j.task.as_str()).collect::<Vec<_>>(), vec!["d"]);
    s.complete(&last[0], exited("d\n", 0));
    assert_eq!(s.reports().len(), 4);
    assert_eq!(s.reports()[0].task, "a");
    assert_eq!(s.reports()[3].task, "d");
}

#[test]
fn no_more_tasks_are_in_flight_than_the_cap() {
    let tasks: Vec<TaskDef> = (0..7).map(|i| task(&format!("t{}", i), &[], "true")).collect();
    let mut s = Scheduler::new(pipeline(tasks, Some(3), None), vec![]).unwrap();
    let mut done = 0;
    let mut running: Vec<Dispatch> = Vec::new();
    loop {
        running.extend(drain(&mut s));
        assert!(s.in_flight() <= 3);
        assert_eq!(s.in_flight(), running.len());
        if running.is_empty() {
            break;
        }
        let job = running.remove(0);
        s.complete(&job, exited("", 0));
        done += 1;
    }
    assert_eq!(done, 7);
}

#[test]
fn default_cap_is_four() {
    let tasks: Vec<TaskDef> = (0..6).map(|i| task(&format!("t{}", i), &[], "true")).collect();
    let mut s = Scheduler::new(pipeline(tasks, None, None), vec![]).unwrap();
    assert_eq!(drain(&mut s).len(), 4);
}

#[test]
fn cap_of_zero_hands_out_nothing() {
    let mut s = Scheduler::new(pipeline(vec![task("a", &[], "true")], Some(0), None), vec![]).unwrap();
    assert!(s.next_task().is_none());
    assert_eq!(s.in_flight(), 0);
}

#[test]
fn each_task_is_handed_out_once() {
    let p = pipeline(
        vec![
            task("a", &[], "true"),
            task("b", &["a", "a"], "true"),
            task("c", &["a", "b"], "true"),
        ],
        Some(8),
        None,
    );
    let mut s = Scheduler::new(p, vec![]).unwrap();
    let mut seen: Vec<String> = Vec::new();
    loop {
        let jobs = drain(&mut s);
        if jobs.is_empty() {
            break;
        }
        for job in jobs {
            assert!(!seen.contains(&job.task));
            seen.push(job.task.clone());
            assert_eq!(s.complete(&job, exited("", 0)), Verdict::Continue);
            assert_eq!(s.complete(&job, exited("", 0)), Verdict::Ignored);
        }
    }
    assert_eq!(seen, vec!["a", "b", "c"]);
}

#[test]
fn stop_on_fail_blocks_dependents() {
    let p = pipeline(vec![task("a", &[], "false"), task("b", &["a"], "true")], None, Some(true));
    let mut s = Scheduler::new(p, vec![]).unwrap();
    let jobs = drain(&mut s);
    assert_eq!(s.complete(&jobs[0], exited("", 1)), Verdict::Abort);
    assert!(s.is_aborted());
    assert!(s.next_task().is_none());
    assert_eq!(s.reports().len(), 1);
    assert_eq!(s.reports()[0].task, "a");
}

#[test]
fn stop_on_fail_keeps_ready_tasks_from_starting() {
    let p = pipeline(
        vec![task("a", &[], "false"), task("b", &[], "true"), task("c", &[], "true")],
        Some(1),
        Some(true),
    );
    let mut s = Scheduler::new(p, vec![]).unwrap();
    let job = s.next_task().unwrap();
    assert!(s.next_task().is_none());
    assert_eq!(s.complete(&job, Outcome::Exited {
        stdout: String::new(),
        stderr: String::new(),
        code: None,
    }), Verdict::Abort);
    assert!(s.next_task().is_none());
}

#[test]
fn continue_on_fail_exempts_a_task_from_stop_on_fail() {
    let mut a = task("a", &[], "false");
    a.continue_on_fail = Some(true);
    let p = pipeline(vec![a, task("b", &["a"], "true")], None, Some(true));
    let mut s = Scheduler::new(p, vec![]).unwrap();
    let jobs = drain(&mut s);
    assert_eq!(s.complete(&jobs[0], exited("", 3)), Verdict::Continue);
    assert!(!s.is_aborted());
    let next = drain(&mut s);
    assert_eq!(next.len(), 1);
    assert_eq!(next[0].task, "b");
}

#[test]
fn failed_exit_without_stop_on_fail_releases_dependents() {
    let p = pipeline(vec![task("a", &[], "false"), task("b", &["a"], "echo {{a.output}}")], None, None);
    let mut s = Scheduler::new(p, vec![]).unwrap();
    let jobs = drain(&mut s);
    assert_eq!(s.complete(&jobs[0], exited(" partial \n", 2)), Verdict::Continue);
    let next = drain(&mut s);
    assert_eq!(next.len(), 1);
    assert_eq!(next[0].command, "echo partial");
}

#[test]
fn task_that_did_not_run_to_its_end_releases_nothing() {
    let p = pipeline(
        vec![task("a", &[], "sleep 10"), task("b", &["a"], "true"), task("c", &[], "true")],
        None,
        None,
    );
    let mut s = Scheduler::new(p, vec![]).unwrap();
    let jobs = drain(&mut s);
    assert_eq!(jobs.len(), 2);
    assert_eq!(s.complete(&jobs[0], errored()), Verdict::Continue);
    assert!(s.next_task().is_none());
    assert_eq!(s.complete(&jobs[1], exited("", 0)), Verdict::Continue);
    assert!(s.next_task().is_none());
    assert_eq!(s.in_flight(), 0);
    assert_eq!(s.reports().len(), 1);
    assert_eq!(s.reports()[0].task, "c");
}

#[test]
fn error_under_stop_on_fail_aborts() {
    let p = pipeline(vec![task("t", &[], "sleep 10"), task("u", &[], "true")], Some(1), Some(true));
    let mut s = Scheduler::new(p, vec![]).unwrap();
    let job = s.next_task().unwrap();
    assert_eq!(s.complete(&job, errored()), Verdict::Abort);
    assert!(s.next_task().is_none());
    assert!(s.reports().is_empty());
}

#[test]
fn shutdown_stops_new_tasks_but_takes_completions() {
    let p = pipeline(vec![task("a", &[], "true"), task("b", &["a"], "true")], None, None);
    let mut s = Scheduler::new(p, vec![]).unwrap();
    let jobs = drain(&mut s);
    s.request_shutdown();
    assert_eq!(s.complete(&jobs[0], exited("", 0)), Verdict::Continue);
    assert!(s.next_task().is_none());
    assert_eq!(s.in_flight(), 0);
    assert_eq!(s.reports().len(), 1);
}

#[test]
fn completion_of_a_task_that_is_not_running_is_ignored() {
    let p = pipeline(vec![task("a", &[], "true"), task("b", &["a"], "true")], None, None);
    let mut s = Scheduler::new(p, vec![]).unwrap();
    let bogus = Dispatch {
        index: 1,
        task: "b".to_string(),
        command: "true".to_string(),
        retries: 0,
        timeout: None,
        backend: "local".to_string(),
    };
    assert_eq!(s.complete(&bogus, exited("", 0)), Verdict::Ignored);
    let far = Dispatch { index: 99, ..bogus };
    assert_eq!(s.complete(&far, exited("", 0)), Verdict::Ignored);
    assert_eq!(drain(&mut s).len(), 1);
}

#[test]
fn invalid_pipeline_is_refused_with_the_validators_error() {
    let p = pipeline(vec![task("a", &["b"], "true"), task("b", &["a"], "true")], None, None);
    assert!(matches!(Scheduler::new(p, vec![]), Err(ValidationError::CycleDetected(_))));
    let p = pipeline(vec![task("a", &["zz"], "true")], None, None);
    assert!(matches!(
        Scheduler::new(p, vec![]),
        Err(ValidationError::UnknownDependency { .. })
    ));
}

#[test]
fn dispatch_carries_the_policies_of_the_task() {
    let mut t = task("t", &[], "echo {{vars.WHO}}");
    t.retries = Some(2);
    t.timeout = Some(1);
    t.backend = Some("docker".to_string());
    let vars = vec![("WHO".to_string(), "me".to_string())];
    let mut s = Scheduler::new(pipeline(vec![t, task("u", &[], "true")], None, None), vars).unwrap();
    let jobs = drain(&mut s);
    assert_eq!(jobs[0].index, 0);
    assert_eq!(jobs[0].command, "echo me");
    assert_eq!(jobs[0].retries, 2);
    assert_eq!(jobs[0].timeout, Some(1));
    assert_eq!(jobs[0].backend, "docker");
    assert_eq!(jobs[1].retries, 0);
    assert_eq!(jobs[1].timeout, None);
    assert_eq!(jobs[1].backend, "local");
}

#[test]
fn transitive_outputs_are_visible() {
    let p = pipeline(
        vec![
            task("a", &[], "echo 1"),
            task("b", &["a"], "echo 2"),
            task("c", &["b"], "echo {{a.output}}-{{b.output}}"),
        ],
        None,
        None,
    );
    let mut s = Scheduler::new(p, vec![]).unwrap();
    let a = drain(&mut s);
    s.complete(&a[0], exited("1\n", 0));
    let b = drain(&mut s);
    s.complete(&b[0], exited("2\n", 0));
    let c = drain(&mut s);
    assert_eq!(c[0].command, "echo 1-2");
}

#[test]
fn timeout_with_two_retries_makes_three_attempts() {
    let mut t = task("t", &[], "sleep 10");
    t.retries = Some(2);
    t.timeout = Some(1);
    let mut s = Scheduler::new(pipeline(vec![t], None, Some(true)), vec![]).unwrap();
    let job = s.next_task().unwrap();
    let mut runner = Runner::new(&job);
    assert_eq!(runner.kind, BackendKind::Local);
    let mut attempts = 0;
    let outcome = loop {
        attempts += 1;
        match runner.after_run(ProcessEvent::DeadlineElapsed { secs: 1 }) {
            RunnerStep::Retry => continue,
            RunnerStep::Done(outcome) => break outcome,
        }
    };
    assert_eq!(attempts, 3);
    match &outcome {
        Outcome::Errored { message } => assert_eq!(message, "local backend timed out after 1s"),
        other => panic!("expected an error, got {:?}", other),
    }
    assert_eq!(s.complete(&job, outcome), Verdict::Abort);
}

#[test]
fn nonzero_exit_is_not_retried() {
    let job = Dispatch {
        index: 0,
        task: "t".to_string(),
        command: "false".to_string(),
        retries: 5,
        timeout: None,
        backend: "local".to_string(),
    };
    let mut runner = Runner::new(&job);
    let step = runner.after_run(ProcessEvent::Finished {
        stdout: "o".to_string(),
        stderr: "e".to_string(),
        code: Some(1),
    });
    match step {
        RunnerStep::Done(Outcome::Exited { stdout, stderr, code }) => {
            assert_eq!(stdout, "o");
            assert_eq!(stderr, "e");
            assert_eq!(code, Some(1));
        }
        other => panic!("expected a result, got {:?}", other),
    }
    assert_eq!(runner.used, 0);
}

#[test]
fn without_retries_the_first_failure_is_final() {
    let job = Dispatch {
        index: 0,
        task: "t".to_string(),
        command: "x".to_string(),
        retries: 0,
        timeout: None,
        backend: "remote".to_string(),
    };
    let mut runner = Runner::new(&job);
    match runner.after_run(ProcessEvent::SpawnFailed) {
        RunnerStep::Done(Outcome::Errored { message }) => {
            assert_eq!(message, "local backend failed to spawn process")
        }
        other => panic!("expected an error, got {:?}", other),
    }
}

#[test]
fn retries_at_the_limit_of_the_counter() {
    let job = Dispatch {
        index: 0,
        task: "t".to_string(),
        command: "x".to_string(),
        retries: u32::MAX,
        timeout: None,
        backend: "local".to_string(),
    };
    let mut runner = Runner::new(&job);
    runner.used = u32::MAX - 1;
    assert!(matches!(runner.after_run(ProcessEvent::WaitFailed), RunnerStep::Retry));
    assert_eq!(runner.used, u32::MAX);
    assert!(matches!(runner.after_run(ProcessEvent::WaitFailed), RunnerStep::Done(_)));
}
