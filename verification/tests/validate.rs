use rustypipe::pipeline::{Pipeline, TaskDef};
use rustypipe::validate::{analyse, find_cycle, validate_pipeline, ValidationError};

fn task(name: &str, deps: &[&str], run: &str) -> TaskDef {
    TaskDef {
        name: name.to_string(),
        depends_on: deps.iter().map(|d| d.to_string()).collect(),
        run: run.to_string(),
        retries: None,
        timeout: None,
        backend: None,
        cache_key: None,
        continue_on_fail: None,
    }
}

fn pipeline(tasks: Vec<TaskDef>) -> Pipeline {
    Pipeline { name: None, concurrency: None, stop_on_fail: None, tasks }
}

#[test]
fn cycle_of_two_is_detected() {
    let p = pipeline(vec![task("a", &["b"], "true"), task("b", &["a"], "true")]);
    match validate_pipeline(&p) {
        Err(ValidationError::CycleDetected(name)) => assert_eq!(name, "a"),
        other => panic!("expected a cycle, got {:?}", other),
    }
}

#[test]
fn cycle_message_names_a_task_of_the_cycle() {
    let p = pipeline(vec![
        task("root", &[], "true"),
        task("a", &["root", "c"], "true"),
        task("b", &["a"], "true"),
        task("c", &["b"], "true"),
    ]);
    let err = validate_pipeline(&p).unwrap_err();
    assert_eq!(err.message(), "cycle detected at a");
}

#[test]
fn self_dependency_is_a_cycle() {
    let p = pipeline(vec![task("a", &["a"], "true")]);
    match validate_pipeline(&p) {
        Err(ValidationError::CycleDetected(name)) => assert_eq!(name, "a"),
        other => panic!("expected a cycle, got {:?}", other),
    }
}

#[test]
fn linear_chain_is_valid() {
    let p = pipeline(vec![
        task("a", &[], "echo hello"),
        task("b", &["a"], "echo {{a.output}} world"),
    ]);
    assert!(validate_pipeline(&p).is_ok());
}

#[test]
fn diamond_is_valid() {
    let p = pipeline(vec![
        task("a", &[], "echo a"),
        task("b", &["a"], "echo b"),
        task("c", &["a"], "echo c"),
        task("d", &["b", "c"], "echo d"),
    ]);
    assert!(validate_pipeline(&p).is_ok());
}

#[test]
fn empty_pipeline_is_valid() {
    assert!(validate_pipeline(&pipeline(vec![])).is_ok());
}

#[test]
fn dependency_listed_twice_is_valid() {
    let p = pipeline(vec![task("a", &[], "true"), task("b", &["a", "a"], "true")]);
    assert!(validate_pipeline(&p).is_ok());
}

#[test]
fn first_duplicate_name_is_reported() {
    let p = pipeline(vec![
        task("a", &[], "true"),
        task("b", &[], "true"),
        task("b", &[], "true"),
        task("a", &[], "true"),
    ]);
    match validate_pipeline(&p) {
        Err(ValidationError::DuplicateName(name)) => assert_eq!(name, "b"),
        other => panic!("expected a duplicate, got {:?}", other),
    }
}

#[test]
fn duplicate_message() {
    let err = ValidationError::DuplicateName("build".to_string());
    assert_eq!(err.message(), "duplicate task name 'build'");
}

#[test]
fn first_unknown_dependency_is_reported() {
    let p = pipeline(vec![
        task("a", &[], "true"),
        task("b", &["a", "x", "y"], "true"),
        task("c", &["z"], "true"),
    ]);
    match validate_pipeline(&p) {
        Err(ValidationError::UnknownDependency { task, dependency }) => {
            assert_eq!(task, "b");
            assert_eq!(dependency, "x");
        }
        other => panic!("expected an unknown dependency, got {:?}", other),
    }
}

#[test]
fn unknown_dependency_message() {
    let err = ValidationError::UnknownDependency {
        task: "b".to_string(),
        dependency: "x".to_string(),
    };
    assert_eq!(err.message(), "task 'b' depends on unknown 'x'");
}

#[test]
fn duplicate_is_found_before_unknown_dependency_and_cycle() {
    let p = pipeline(vec![
        task("a", &["a", "nowhere"], "true"),
        task("a", &[], "true"),
    ]);
    assert!(matches!(validate_pipeline(&p), Err(ValidationError::DuplicateName(_))));
}

#[test]
fn unknown_dependency_is_found_before_cycle() {
    let p = pipeline(vec![task("a", &["a"], "true"), task("b", &["nowhere"], "true")]);
    assert!(matches!(
        validate_pipeline(&p),
        Err(ValidationError::UnknownDependency { .. })
    ));
}

#[test]
fn analyse_gives_dependencies_and_dependents_by_position() {
    let tasks = vec![
        task("a", &[], "true"),
        task("b", &["a"], "true"),
        task("c", &["a", "b"], "true"),
    ];
    let dag = analyse(&tasks).unwrap();
    assert_eq!(dag.deps, vec![vec![], vec![0], vec![0, 1]]);
    assert_eq!(dag.dependents, vec![vec![1, 2], vec![2], vec![]]);
}

#[test]
fn find_cycle_on_plain_graphs() {
    assert_eq!(find_cycle(&vec![vec![1], vec![2], vec![]]), None);
    assert_eq!(find_cycle(&vec![vec![1], vec![2], vec![1]]), Some(1));
    assert_eq!(find_cycle(&vec![vec![], vec![2, 0], vec![0, 2]]), Some(2));
    assert_eq!(find_cycle(&vec![]), None);
}

#[test]
fn long_chain_is_valid() {
    let mut tasks = vec![task("t0", &[], "true")];
    for i in 1..200 {
        let prev = format!("t{}", i - 1);
        tasks.push(task(&format!("t{}", i), &[prev.as_str()], "true"));
    }
    assert!(validate_pipeline(&pipeline(tasks)).is_ok());
}
