use rustypipe::artifact::{
    artifacts, exit_code_text, log_artifact, log_summary, name_artifact, record_artifact,
    sanitize_filename, timestamp, timestamp_at,
};
use rustypipe::cli::{parse_opts, unknown_subcommand, usage, Opts, Subcommand};
use rustypipe::pipeline::{Pipeline, TaskDef};
use rustypipe::plugins::{NoopPlugin, Plugin};
use rustypipe::scheduler::TaskReport;

fn report(task: &str, code: Option<i32>) -> TaskReport {
    TaskReport {
        task: task.to_string(),
        command: "echo \"hi\"".to_string(),
        stdout: "hi\n".to_string(),
        stderr: "warn\n".to_string(),
        exit_code: code,
    }
}

#[test]
fn illegal_characters_become_underscores() {
    assert_eq!(sanitize_filename("a<b>c/d\\e|f?g*h:i\"j"), "a_b_c_d_e_f_g_h_i_j");
    assert_eq!(sanitize_filename("plain-name_1.txt"), "plain-name_1.txt");
    assert_eq!(sanitize_filename(""), "");
    assert_eq!(sanitize_filename("dé:jà"), "dé_jà");
}

#[test]
fn sanitizing_twice_changes_nothing_more() {
    let once = sanitize_filename("x:/y");
    assert_eq!(sanitize_filename(&once), once);
}

#[test]
fn artifact_names() {
    assert_eq!(name_artifact("build:all", "2024-01-02_03-04-05", ".log"), "build_all_2024-01-02_03-04-05.log");
    assert_eq!(name_artifact("t", "s", ".json"), "t_s.json");
}

#[test]
fn exit_code_in_the_log() {
    assert_eq!(exit_code_text(Some(0)), "Some(0)");
    assert_eq!(exit_code_text(Some(127)), "Some(127)");
    assert_eq!(exit_code_text(Some(-1)), "Some(-1)");
    assert_eq!(exit_code_text(Some(i32::MIN)), "Some(-2147483648)");
    assert_eq!(exit_code_text(Some(i32::MAX)), "Some(2147483647)");
    assert_eq!(exit_code_text(None), "None");
}

#[test]
fn log_text() {
    assert_eq!(
        log_summary(&report("a", Some(3))),
        "Task: a\nCmd: echo \"hi\"\nExit: Some(3)\nStdout:\nhi\n\nStderr:\nwarn\n\n"
    );
}

#[test]
fn log_artifact_of_a_report() {
    let a = log_artifact(&report("a/b", None), "STAMP");
    assert_eq!(a.name, "a_b_STAMP.log");
    assert_eq!(a.content, "Task: a/b\nCmd: echo \"hi\"\nExit: None\nStdout:\nhi\n\nStderr:\nwarn\n\n");
}

#[test]
fn record_is_a_json_object_of_four_fields() {
    let a = record_artifact(&report("a", Some(0)), "STAMP", "2024-01-02T03:04:05+00:00");
    assert_eq!(a.name, "a_STAMP.json");
    let value: serde_json::Value = serde_json::from_str(&a.content).unwrap();
    let object = value.as_object().unwrap();
    assert_eq!(object.len(), 4);
    assert_eq!(object["task"], serde_json::Value::from("a"));
    assert_eq!(object["command"], serde_json::Value::from("echo \"hi\""));
    assert_eq!(object["exit_code"], serde_json::Value::from(0));
    assert_eq!(object["timestamp"], serde_json::Value::from("2024-01-02T03:04:05+00:00"));
}

#[test]
fn record_without_exit_code_holds_null() {
    let a = record_artifact(&report("a", None), "S", "T");
    let value: serde_json::Value = serde_json::from_str(&a.content).unwrap();
    assert!(value["exit_code"].is_null());
    assert_eq!(
        a.content,
        "{\"command\":\"echo \\\"hi\\\"\",\"exit_code\":null,\"task\":\"a\",\"timestamp\":\"T\"}"
    );
}

#[test]
fn time_stamp_of_the_epoch() {
    assert_eq!(timestamp_at(0).unwrap(), "1970-01-01_00-00-00");
}

#[test]
fn time_stamp_of_a_known_moment() {
    assert_eq!(timestamp_at(1700000000).unwrap(), "2023-11-14_22-13-20");
    assert_eq!(timestamp_at(-1).unwrap(), "1969-12-31_23-59-59");
}

#[test]
fn time_out_of_range_gives_no_stamp() {
    assert!(timestamp_at(i64::MAX).is_none());
    assert!(artifacts(&report("a", Some(0)), i64::MIN, 0).is_none());
}

#[test]
fn time_stamp_of_now_has_the_shape() {
    let now = timestamp().unwrap();
    assert_eq!(now.len(), 19);
    assert_eq!(&now[4..5], "-");
    assert_eq!(&now[10..11], "_");
    assert!(now.as_str() > "2020");
}

#[test]
fn both_artifacts_of_a_task() {
    let (log, record) = artifacts(&report("a:b", Some(0)), 1700000000, 5).unwrap();
    assert_eq!(log.name, "a_b_2023-11-14_22-13-20.log");
    assert_eq!(record.name, "a_b_2023-11-14_22-13-20.json");
    assert!(log.content.starts_with("Task: a:b\n"));
    let value: serde_json::Value = serde_json::from_str(&record.content).unwrap();
    assert_eq!(value["task"], serde_json::Value::from("a:b"));
    assert_eq!(value["timestamp"], serde_json::Value::from("2023-11-14T22:13:20.000000005+00:00"));
}

#[test]
fn options_need_a_subcommand_and_a_path() {
    let args = |items: &[&str]| items.iter().map(|s| s.to_string()).collect::<Vec<String>>();
    assert!(parse_opts(&args(&[])).is_none());
    assert!(parse_opts(&args(&["rustypipe"])).is_none());
    assert!(parse_opts(&args(&["rustypipe", "run"])).is_none());
    let o = parse_opts(&args(&["rustypipe", "run", "p.yaml", "extra"])).unwrap();
    assert_eq!(o.subcommand, "run");
    assert_eq!(o.path, "p.yaml");
}

#[test]
fn subcommands() {
    let opts = |s: &str| Opts { subcommand: s.to_string(), path: "p".to_string() };
    assert_eq!(opts("run").command(), Subcommand::Run);
    assert_eq!(opts("validate").command(), Subcommand::Validate);
    assert_eq!(opts("Run").command(), Subcommand::Unknown);
    assert_eq!(opts("").command(), Subcommand::Unknown);
}

#[test]
fn messages_of_the_command_line() {
    assert_eq!(usage(), "Usage: rustypipe <run|validate> <pipeline.yaml>");
    assert_eq!(unknown_subcommand("rn"), "Unknown subcommand: rn (supported: run, validate)");
}

#[test]
fn noop_plugin_changes_nothing() {
    let mut task = TaskDef {
        name: "a".to_string(),
        depends_on: vec!["b".to_string()],
        run: "true".to_string(),
        retries: Some(1),
        timeout: Some(2),
        backend: None,
        cache_key: Some("k".to_string()),
        continue_on_fail: Some(true),
    };
    let plugin = NoopPlugin;
    assert_eq!(plugin.name(), "noop");
    assert!(plugin.preprocess(&mut task, &vec![]).is_ok());
    assert_eq!(task.name, "a");
    assert_eq!(task.depends_on, vec!["b".to_string()]);
    assert_eq!(task.retries, Some(1));
    assert_eq!(task.cache_key, Some("k".to_string()));
}

#[test]
fn defaults_of_the_pipeline_document() {
    let p = Pipeline { name: None, concurrency: None, stop_on_fail: None, tasks: vec![] };
    assert_eq!(p.concurrency_cap(), 4);
    assert!(!p.stops_on_fail());
    let p = Pipeline { name: None, concurrency: Some(9), stop_on_fail: Some(true), tasks: vec![] };
    assert_eq!(p.concurrency_cap(), 9);
    assert!(p.stops_on_fail());
    let t = TaskDef {
        name: "a".to_string(),
        depends_on: vec![],
        run: "true".to_string(),
        retries: None,
        timeout: None,
        backend: None,
        cache_key: None,
        continue_on_fail: None,
    };
    assert_eq!(t.retry_count(), 0);
    assert!(!t.tolerates_failure());
}
