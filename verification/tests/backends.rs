use rustypipe::backends::{
    conclude, on_timeout, pod_name, windows_mount_path, BackendError, BackendKind, Cleanup,
    DockerBackend, KubernetesBackend, LocalBackend, ProcessEvent, SSHBackend,
};
use rustypipe::runner::select_backend;

fn strings(items: &[&str]) -> Vec<String> {
    items.iter().map(|s| s.to_string()).collect()
}

#[test]
fn local_command_on_posix() {
    let inv = LocalBackend::new().command("echo hi | wc", false);
    assert_eq!(inv.program, "sh");
    assert_eq!(inv.args, strings(&["-c", "echo hi | wc"]));
}

#[test]
fn local_command_on_windows() {
    let inv = LocalBackend::new().command("dir", true);
    assert_eq!(inv.program, "powershell.exe");
    assert_eq!(inv.args, strings(&["-NoLogo", "-NoProfile", "-Command", "dir"]));
}

#[test]
fn docker_command_mounts_the_working_directory() {
    let inv = DockerBackend::new("alpine:3").command("/home/me/proj", "make all");
    assert_eq!(inv.program, "docker");
    assert_eq!(
        inv.args,
        strings(&[
            "run", "--rm", "-w", "/workdir", "-v", "/home/me/proj:/workdir", "alpine:3", "sh",
            "-c", "make all",
        ])
    );
}

#[test]
fn docker_extra_arguments_stand_before_the_image() {
    let backend = DockerBackend::new("img")
        .with_args(strings(&["--ignored"]))
        .with_args(strings(&["--network", "host"]));
    let inv = backend.command("/w", "true");
    assert_eq!(
        inv.args,
        strings(&[
            "run", "--rm", "-w", "/workdir", "-v", "/w:/workdir", "--network", "host", "img",
            "sh", "-c", "true",
        ])
    );
}

#[test]
fn windows_paths_become_mount_paths() {
    assert_eq!(windows_mount_path(r"\\?\C:\Users\me\proj"), "/c/Users/me/proj");
    assert_eq!(windows_mount_path(r"D:\data"), "/d/data");
    assert_eq!(windows_mount_path("e:/x"), "/e/x");
    assert_eq!(windows_mount_path(r"\?\C:\x"), "/c/x");
    assert_eq!(windows_mount_path(r"\\server\share"), "//server/share");
    assert_eq!(windows_mount_path("/already/posix"), "/already/posix");
    assert_eq!(windows_mount_path(""), "");
    assert_eq!(windows_mount_path("C"), "C");
    assert_eq!(windows_mount_path("é:\\x"), "é:/x");
}

#[test]
fn ssh_command_with_defaults() {
    let inv = SSHBackend::new("example.org").command("uname -a");
    assert_eq!(inv.program, "ssh");
    assert_eq!(
        inv.args,
        strings(&[
            "-o", "BatchMode=yes", "-o", "ConnectTimeout=10", "example.org", "sh", "-lc",
            "uname -a",
        ])
    );
}

#[test]
fn ssh_command_with_everything_set() {
    let backend = SSHBackend::new("10.0.0.7")
        .with_user("deploy")
        .with_port(2222)
        .with_key("/keys/id")
        .with_args(strings(&["-v"]));
    assert_eq!(backend.target(), "deploy@10.0.0.7");
    let inv = backend.command("ls");
    assert_eq!(
        inv.args,
        strings(&[
            "-p", "2222", "-i", "/keys/id", "-o", "BatchMode=yes", "-o", "ConnectTimeout=10",
            "-v", "deploy@10.0.0.7", "sh", "-lc", "ls",
        ])
    );
}

#[test]
fn ssh_port_limits() {
    let inv = SSHBackend::new("h").with_port(0).command("x");
    assert_eq!(inv.args[1], "0");
    let inv = SSHBackend::new("h").with_port(u16::MAX).command("x");
    assert_eq!(inv.args[1], "65535");
}

#[test]
fn pod_name_holds_the_nanoseconds() {
    assert_eq!(pod_name(1700000000123456789), "rustypipe-1700000000123456789");
    assert_eq!(pod_name(0), "rustypipe-0");
}

#[test]
fn kubectl_run_command() {
    let inv = KubernetesBackend::new("busybox").command("rustypipe-5", "echo hi");
    assert_eq!(inv.program, "kubectl");
    assert_eq!(
        inv.args,
        strings(&[
            "run", "rustypipe-5", "--rm", "--restart=Never", "--image", "busybox", "--", "sh",
            "-c", "echo hi",
        ])
    );
}

#[test]
fn kubectl_run_command_with_namespace_and_arguments() {
    let backend = KubernetesBackend::new("busybox")
        .with_namespace("ci")
        .with_args(strings(&["--serviceaccount=runner"]));
    let inv = backend.command("pod", "true");
    assert_eq!(
        inv.args,
        strings(&[
            "run", "pod", "--rm", "--restart=Never", "--image", "busybox", "--namespace", "ci",
            "--serviceaccount=runner", "--", "sh", "-c", "true",
        ])
    );
    let cleanup = backend.cleanup_command("pod");
    assert_eq!(cleanup.program, "kubectl");
    assert_eq!(cleanup.args, strings(&["delete", "pod", "pod", "--namespace", "ci"]));
}

#[test]
fn kubectl_cleanup_without_namespace() {
    let cleanup = KubernetesBackend::new("busybox").cleanup_command("rustypipe-9");
    assert_eq!(cleanup.args, strings(&["delete", "pod", "rustypipe-9"]));
}

#[test]
fn nonzero_exit_is_a_result_not_an_error() {
    let r = conclude(ProcessEvent::Finished {
        stdout: "out".to_string(),
        stderr: "err".to_string(),
        code: Some(7),
    })
    .unwrap();
    assert_eq!(r.stdout, "out");
    assert_eq!(r.stderr, "err");
    assert_eq!(r.exit_code, Some(7));
}

#[test]
fn failures_of_a_run_are_errors() {
    assert_eq!(conclude(ProcessEvent::SpawnFailed).unwrap_err(), BackendError::Spawn);
    assert_eq!(conclude(ProcessEvent::WaitFailed).unwrap_err(), BackendError::Wait);
    assert_eq!(
        conclude(ProcessEvent::DeadlineElapsed { secs: 30 }).unwrap_err(),
        BackendError::Timeout { secs: 30 }
    );
}

#[test]
fn error_messages_of_each_backend() {
    assert_eq!(BackendError::Spawn.message(BackendKind::Local), "local backend failed to spawn process");
    assert_eq!(BackendError::Spawn.message(BackendKind::Container), "docker backend failed to spawn process");
    assert_eq!(BackendError::Spawn.message(BackendKind::Remote), "ssh backend failed to spawn ssh process");
    assert_eq!(
        BackendError::Spawn.message(BackendKind::Cluster),
        "kubernetes backend failed to spawn kubectl process"
    );
    assert_eq!(BackendError::Wait.message(BackendKind::Local), "waiting for child failed");
    assert_eq!(BackendError::Wait.message(BackendKind::Container), "waiting for docker child failed");
    assert_eq!(BackendError::Wait.message(BackendKind::Remote), "waiting for ssh child failed");
    assert_eq!(BackendError::Wait.message(BackendKind::Cluster), "waiting for kubectl child failed");
    assert_eq!(
        BackendError::Timeout { secs: 1 }.message(BackendKind::Local),
        "local backend timed out after 1s"
    );
    assert_eq!(
        BackendError::Timeout { secs: 90 }.message(BackendKind::Container),
        "docker backend timed out after 90s"
    );
    assert_eq!(
        BackendError::Timeout { secs: u64::MAX }.message(BackendKind::Remote),
        "ssh backend timed out after 18446744073709551615s"
    );
    assert_eq!(
        BackendError::Timeout { secs: 0 }.message(BackendKind::Cluster),
        "kubernetes backend timed out after 0s"
    );
}

#[test]
fn only_a_cluster_run_deletes_its_pod_after_a_timeout() {
    assert_eq!(on_timeout(BackendKind::Local), vec![Cleanup::Kill, Cleanup::Reap]);
    assert_eq!(on_timeout(BackendKind::Container), vec![Cleanup::Kill, Cleanup::Reap]);
    assert_eq!(on_timeout(BackendKind::Remote), vec![Cleanup::Kill, Cleanup::Reap]);
    assert_eq!(
        on_timeout(BackendKind::Cluster),
        vec![Cleanup::Kill, Cleanup::Reap, Cleanup::DeletePod]
    );
}

#[test]
fn every_selector_falls_back_to_the_local_backend() {
    assert_eq!(select_backend("local"), BackendKind::Local);
    assert_eq!(select_backend("docker"), BackendKind::Local);
    assert_eq!(select_backend(""), BackendKind::Local);
}
