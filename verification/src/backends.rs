//! The execution backends: how each one turns a shell command into the
//! command line of the program that runs it, and how a finished or failed
//! run is reported.

use crate::pipeline::texts;
use crate::text::{concat, decimal, decimal_string, from_chars, to_chars};
use vstd::prelude::*;
use vstd::string::StringExecFns;

verus! {

/// A program and the arguments to start it with.
#[derive(Debug, Clone)]
pub struct Invocation {
    pub program: String,
    pub args: Vec<String>,
}

impl Invocation {
    /// The arguments as texts.
    pub open spec fn argv(&self) -> Seq<Seq<char>> {
        texts(self.args@)
    }
}

/// Appends `s` to `args`.
fn push_arg(args: &mut Vec<String>, s: &str)
    ensures
        texts(final(args)@) == texts(old(args)@).push(s@),
{
    args.push(s.to_string());
    assert(texts(args@) =~= texts(old(args)@).push(s@));
}

/// Appends every element of `more` to `args`.
fn push_args(args: &mut Vec<String>, more: &Vec<String>)
    ensures
        texts(final(args)@) == texts(old(args)@) + texts(more@),
{
    let mut i: usize = 0;
    assert(texts(args@) =~= texts(old(args)@) + texts(more@.take(0)));
    while i < more.len()
        invariant
            i <= more.len(),
            texts(args@) == texts(old(args)@) + texts(more@.take(i as int)),
        decreases more.len() - i,
    {
        let ghost before = args@;
        args.push(more[i].clone());
        proof {
            assert(texts(args@) =~= texts(before).push(more[i as int]@));
            assert(texts(more@.take(i + 1)) =~= texts(more@.take(i as int)).push(more[i as int]@));
            assert(texts(args@) =~= texts(old(args)@) + texts(more@.take(i + 1)));
        }
        i += 1;
    }
    assert(more@.take(more.len() as int) =~= more@);
}

/// Runs commands in the shell of the host.
#[derive(Debug, Clone)]
pub struct LocalBackend;

/// The arguments of the host shell for `cmd`.
pub open spec fn local_args(cmd: Seq<char>, windows: bool) -> Seq<Seq<char>> {
    if windows {
        seq!["-NoLogo"@, "-NoProfile"@, "-Command"@, cmd]
    } else {
        seq!["-c"@, cmd]
    }
}

impl LocalBackend {
    /// The backend of the host.
    pub fn new() -> (r: Self)
        ensures
            r == LocalBackend,
    {
        LocalBackend
    }

    /// The command line that runs `cmd`: `sh -c` on a POSIX host,
    /// PowerShell on a Windows host.
    pub fn command(&self, cmd: &str, windows: bool) -> (r: Invocation)
        ensures
            r.program@ == if windows {
                "powershell.exe"@
            } else {
                "sh"@
            },
            r.argv() == local_args(cmd@, windows),
    {
        let mut args: Vec<String> = Vec::new();
        assert(texts(args@) =~= Seq::empty());
        if windows {
            push_arg(&mut args, "-NoLogo");
            push_arg(&mut args, "-NoProfile");
            push_arg(&mut args, "-Command");
            push_arg(&mut args, cmd);
            assert(texts(args@) =~= local_args(cmd@, windows));
            Invocation { program: "powershell.exe".to_string(), args }
        } else {
            push_arg(&mut args, "-c");
            push_arg(&mut args, cmd);
            assert(texts(args@) =~= local_args(cmd@, windows));
            Invocation { program: "sh".to_string(), args }
        }
    }
}

/// Runs commands in a container of an image, with the working directory
/// of the host mounted at `/workdir`.
#[derive(Debug, Clone)]
pub struct DockerBackend {
    image: String,
    extra_args: Vec<String>,
}

/// The arguments of `docker` that run `cmd` in `image` with `mount` at `/workdir`.
pub open spec fn docker_args(
    mount: Seq<char>,
    extra: Seq<Seq<char>>,
    image: Seq<char>,
    cmd: Seq<char>,
) -> Seq<Seq<char>> {
    seq!["run"@, "--rm"@, "-w"@, "/workdir"@, "-v"@, mount + ":/workdir"@] + extra + seq![
        image,
        "sh"@,
        "-c"@,
        cmd,
    ]
}

impl DockerBackend {
    /// The image that the commands run in.
    pub closed spec fn image(&self) -> Seq<char> {
        self.image@
    }

    /// The arguments put before the image.
    pub closed spec fn extra_args(&self) -> Seq<Seq<char>> {
        texts(self.extra_args@)
    }

    /// A backend that runs commands in `image`.
    pub fn new(image: &str) -> (r: Self)
        ensures
            r.image() == image@,
            r.extra_args().len() == 0,
    {
        DockerBackend { image: image.to_string(), extra_args: Vec::new() }
    }

    /// Sets the arguments put before the image, in place of any set before.
    pub fn with_args(self, args: Vec<String>) -> (r: Self)
        ensures
            r.image() == self.image(),
            r.extra_args() == texts(args@),
    {
        DockerBackend { image: self.image, extra_args: args }
    }

    /// The command line that runs `cmd` with the host directory `host_path`
    /// mounted as the working directory.
    pub fn command(&self, host_path: &str, cmd: &str) -> (r: Invocation)
        ensures
            r.program@ == "docker"@,
            r.argv() == docker_args(host_path@, self.extra_args(), self.image(), cmd@),
    {
        let mut parts: Vec<&str> = Vec::new();
        parts.push(host_path);
        parts.push(":/workdir");
        let mount = concat(&parts);
        proof {
            reveal_with_fuel(crate::text::joined, 3);
            assert(parts@.drop_last().drop_last() =~= Seq::empty());
            assert(mount@ =~= host_path@ + ":/workdir"@);
        }
        let mut args: Vec<String> = Vec::new();
        assert(texts(args@) =~= Seq::empty());
        push_arg(&mut args, "run");
        push_arg(&mut args, "--rm");
        push_arg(&mut args, "-w");
        push_arg(&mut args, "/workdir");
        push_arg(&mut args, "-v");
        push_arg(&mut args, mount.as_str());
        push_args(&mut args, &self.extra_args);
        push_arg(&mut args, self.image.as_str());
        push_arg(&mut args, "sh");
        push_arg(&mut args, "-c");
        push_arg(&mut args, cmd);
        assert(texts(args@) =~= docker_args(host_path@, self.extra_args(), self.image(), cmd@));
        Invocation { program: "docker".to_string(), args }
    }
}

/// Runs commands on another host through the `ssh` program.
#[derive(Debug, Clone)]
pub struct SSHBackend {
    host: String,
    user: Option<String>,
    port: Option<u16>,
    key_path: Option<String>,
    extra_args: Vec<String>,
}

/// The host to connect to, with the user before it where one is set.
pub open spec fn ssh_target(user: Option<Seq<char>>, host: Seq<char>) -> Seq<char> {
    match user {
        Some(u) => u + "@"@ + host,
        None => host,
    }
}

/// The arguments of `ssh` that run `cmd` on the target.
pub open spec fn ssh_args(
    port: Option<u16>,
    key: Option<Seq<char>>,
    extra: Seq<Seq<char>>,
    target: Seq<char>,
    cmd: Seq<char>,
) -> Seq<Seq<char>> {
    (match port {
        Some(p) => seq!["-p"@, decimal(p as nat)],
        None => Seq::empty(),
    }) + (match key {
        Some(k) => seq!["-i"@, k],
        None => Seq::empty(),
    }) + seq!["-o"@, "BatchMode=yes"@, "-o"@, "ConnectTimeout=10"@] + extra + seq![
        target,
        "sh"@,
        "-lc"@,
        cmd,
    ]
}

impl SSHBackend {
    pub closed spec fn host(&self) -> Seq<char> {
        self.host@
    }

    pub closed spec fn user(&self) -> Option<Seq<char>> {
        match self.user {
            Some(u) => Some(u@),
            None => None,
        }
    }

    pub closed spec fn port(&self) -> Option<u16> {
        self.port
    }

    pub closed spec fn key_path(&self) -> Option<Seq<char>> {
        match self.key_path {
            Some(k) => Some(k@),
            None => None,
        }
    }

    pub closed spec fn extra_args(&self) -> Seq<Seq<char>> {
        texts(self.extra_args@)
    }

    /// A backend that runs commands on `host`, with the defaults of `ssh`.
    pub fn new(host: &str) -> (r: Self)
        ensures
            r.host() == host@,
            r.user() is None,
            r.port() is None,
            r.key_path() is None,
            r.extra_args().len() == 0,
    {
        SSHBackend {
            host: host.to_string(),
            user: None,
            port: None,
            key_path: None,
            extra_args: Vec::new(),
        }
    }

    /// Sets the user to log in as.
    pub fn with_user(self, user: &str) -> (r: Self)
        ensures
            r.user() == Some(user@),
            r.host() == self.host(),
            r.port() == self.port(),
            r.key_path() == self.key_path(),
            r.extra_args() == self.extra_args(),
    {
        SSHBackend {
            host: self.host,
            user: Some(user.to_string()),
            port: self.port,
            key_path: self.key_path,
            extra_args: self.extra_args,
        }
    }

    /// Sets the port to connect to.
    pub fn with_port(self, port: u16) -> (r: Self)
        ensures
            r.port() == Some(port),
            r.host() == self.host(),
            r.user() == self.user(),
            r.key_path() == self.key_path(),
            r.extra_args() == self.extra_args(),
    {
        SSHBackend {
            host: self.host,
            user: self.user,
            port: Some(port),
            key_path: self.key_path,
            extra_args: self.extra_args,
        }
    }

    /// Sets the file that holds the identity to log in with.
    pub fn with_key(self, key_path: &str) -> (r: Self)
        ensures
            r.key_path() == Some(key_path@),
            r.host() == self.host(),
            r.user() == self.user(),
            r.port() == self.port(),
            r.extra_args() == self.extra_args(),
    {
        SSHBackend {
            host: self.host,
            user: self.user,
            port: self.port,
            key_path: Some(key_path.to_string()),
            extra_args: self.extra_args,
        }
    }

    /// Sets the arguments put before the target, in place of any set before.
    pub fn with_args(self, args: Vec<String>) -> (r: Self)
        ensures
            r.extra_args() == texts(args@),
            r.host() == self.host(),
            r.user() == self.user(),
            r.port() == self.port(),
            r.key_path() == self.key_path(),
    {
        SSHBackend {
            host: self.host,
            user: self.user,
            port: self.port,
            key_path: self.key_path,
            extra_args: args,
        }
    }

    /// The host to connect to, with the user before it where one is set.
    pub fn target(&self) -> (r: String)
        ensures
            r@ == ssh_target(self.user(), self.host()),
    {
        match &self.user {
            Some(u) => {
                let mut parts: Vec<&str> = Vec::new();
                parts.push(u.as_str());
                parts.push("@");
                parts.push(self.host.as_str());
                let r = concat(&parts);
                proof {
                    reveal_with_fuel(crate::text::joined, 4);
                    assert(parts@.drop_last().drop_last().drop_last() =~= Seq::empty());
                    assert(r@ =~= u@ + "@"@ + self.host@);
                }
                r
            },
            None => self.host.clone(),
        }
    }

    /// The command line that runs `cmd` on the target, without prompts and
    /// with a limit of ten seconds on connecting.
    pub fn command(&self, cmd: &str) -> (r: Invocation)
        ensures
            r.program@ == "ssh"@,
            r.argv() == ssh_args(
                self.port(),
                self.key_path(),
                self.extra_args(),
                ssh_target(self.user(), self.host()),
                cmd@,
            ),
    {
        let mut args: Vec<String> = Vec::new();
        assert(texts(args@) =~= Seq::empty());
        match self.port {
            Some(p) => {
                push_arg(&mut args, "-p");
                let digits = decimal_string(p as u128);
                push_arg(&mut args, digits.as_str());
            },
            None => {},
        }
        match &self.key_path {
            Some(k) => {
                push_arg(&mut args, "-i");
                push_arg(&mut args, k.as_str());
            },
            None => {},
        }
        push_arg(&mut args, "-o");
        push_arg(&mut args, "BatchMode=yes");
        push_arg(&mut args, "-o");
        push_arg(&mut args, "ConnectTimeout=10");
        push_args(&mut args, &self.extra_args);
        let target = self.target();
        push_arg(&mut args, target.as_str());
        push_arg(&mut args, "sh");
        push_arg(&mut args, "-lc");
        push_arg(&mut args, cmd);
        assert(texts(args@) =~= ssh_args(
            self.port(),
            self.key_path(),
            self.extra_args(),
            ssh_target(self.user(), self.host()),
            cmd@,
        ));
        Invocation { program: "ssh".to_string(), args }
    }
}

/// Runs commands in a short-lived pod of a cluster through `kubectl`.
#[derive(Debug, Clone)]
pub struct KubernetesBackend {
    image: String,
    namespace: Option<String>,
    extra_args: Vec<String>,
}

/// The `--namespace` argument pair, where a namespace is set.
pub open spec fn namespace_args(namespace: Option<Seq<char>>) -> Seq<Seq<char>> {
    match namespace {
        Some(ns) => seq!["--namespace"@, ns],
        None => Seq::empty(),
    }
}

/// The arguments of `kubectl` that run `cmd` in the pod `pod` of `image`.
pub open spec fn kubectl_run_args(
    pod: Seq<char>,
    image: Seq<char>,
    namespace: Option<Seq<char>>,
    extra: Seq<Seq<char>>,
    cmd: Seq<char>,
) -> Seq<Seq<char>> {
    seq!["run"@, pod, "--rm"@, "--restart=Never"@, "--image"@, image] + namespace_args(namespace)
        + extra + seq!["--"@, "sh"@, "-c"@, cmd]
}

/// The arguments of `kubectl` that delete the pod `pod`.
pub open spec fn kubectl_delete_args(pod: Seq<char>, namespace: Option<Seq<char>>) -> Seq<
    Seq<char>,
> {
    seq!["delete"@, "pod"@, pod] + namespace_args(namespace)
}

/// The name of the pod started at `nanos` nanoseconds after the epoch.
pub fn pod_name(nanos: u128) -> (r: String)
    ensures
        r@ == "rustypipe-"@ + decimal(nanos as nat),
{
    let digits = decimal_string(nanos);
    let mut parts: Vec<&str> = Vec::new();
    parts.push("rustypipe-");
    parts.push(digits.as_str());
    let r = concat(&parts);
    proof {
        reveal_with_fuel(crate::text::joined, 3);
        assert(parts@.drop_last().drop_last() =~= Seq::empty());
        assert(r@ =~= "rustypipe-"@ + digits@);
    }
    r
}

impl KubernetesBackend {
    pub closed spec fn image(&self) -> Seq<char> {
        self.image@
    }

    pub closed spec fn namespace(&self) -> Option<Seq<char>> {
        match self.namespace {
            Some(ns) => Some(ns@),
            None => None,
        }
    }

    pub closed spec fn extra_args(&self) -> Seq<Seq<char>> {
        texts(self.extra_args@)
    }

    /// A backend that runs commands in pods of `image`.
    pub fn new(image: &str) -> (r: Self)
        ensures
            r.image() == image@,
            r.namespace() is None,
            r.extra_args().len() == 0,
    {
        KubernetesBackend { image: image.to_string(), namespace: None, extra_args: Vec::new() }
    }

    /// Sets the namespace that the pods are started in.
    pub fn with_namespace(self, ns: &str) -> (r: Self)
        ensures
            r.namespace() == Some(ns@),
            r.image() == self.image(),
            r.extra_args() == self.extra_args(),
    {
        KubernetesBackend {
            image: self.image,
            namespace: Some(ns.to_string()),
            extra_args: self.extra_args,
        }
    }

    /// Sets the arguments put before the `--`, in place of any set before.
    pub fn with_args(self, args: Vec<String>) -> (r: Self)
        ensures
            r.extra_args() == texts(args@),
            r.image() == self.image(),
            r.namespace() == self.namespace(),
    {
        KubernetesBackend { image: self.image, namespace: self.namespace, extra_args: args }
    }

    /// The command line that runs `cmd` in a pod named `pod`, which is
    /// removed when the command ends.
    pub fn command(&self, pod: &str, cmd: &str) -> (r: Invocation)
        ensures
            r.program@ == "kubectl"@,
            r.argv() == kubectl_run_args(
                pod@,
                self.image(),
                self.namespace(),
                self.extra_args(),
                cmd@,
            ),
    {
        let mut args: Vec<String> = Vec::new();
        assert(texts(args@) =~= Seq::empty());
        push_arg(&mut args, "run");
        push_arg(&mut args, pod);
        push_arg(&mut args, "--rm");
        push_arg(&mut args, "--restart=Never");
        push_arg(&mut args, "--image");
        push_arg(&mut args, self.image.as_str());
        match &self.namespace {
            Some(ns) => {
                push_arg(&mut args, "--namespace");
                push_arg(&mut args, ns.as_str());
            },
            None => {},
        }
        push_args(&mut args, &self.extra_args);
        push_arg(&mut args, "--");
        push_arg(&mut args, "sh");
        push_arg(&mut args, "-c");
        push_arg(&mut args, cmd);
        assert(texts(args@) =~= kubectl_run_args(
            pod@,
            self.image(),
            self.namespace(),
            self.extra_args(),
            cmd@,
        ));
        Invocation { program: "kubectl".to_string(), args }
    }

    /// The command line that deletes the pod `pod`, for use after a run
    /// that was cut off.
    pub fn cleanup_command(&self, pod: &str) -> (r: Invocation)
        ensures
            r.program@ == "kubectl"@,
            r.argv() == kubectl_delete_args(pod@, self.namespace()),
    {
        let mut args: Vec<String> = Vec::new();
        assert(texts(args@) =~= Seq::empty());
        push_arg(&mut args, "delete");
        push_arg(&mut args, "pod");
        push_arg(&mut args, pod);
        match &self.namespace {
            Some(ns) => {
                push_arg(&mut args, "--namespace");
                push_arg(&mut args, ns.as_str());
            },
            None => {},
        }
        assert(texts(args@) =~= kubectl_delete_args(pod@, self.namespace()));
        Invocation { program: "kubectl".to_string(), args }
    }
}

/// The lower-case form of an ASCII capital letter; any other character as it is.
pub open spec fn ascii_lower(c: char) -> char {
    if 'A' <= c && c <= 'Z' {
        ((c as u8) + 32) as char
    } else {
        c
    }
}

/// `s` with every backslash turned into a slash.
pub open spec fn slashed(s: Seq<char>) -> Seq<char> {
    Seq::new(
        s.len(),
        |k: int|
            if s[k] == '\\' {
                '/'
            } else {
                s[k]
            },
    )
}

/// `s` without the extended-path prefix `//?/` or `/?/`.
pub open spec fn unprefixed(s: Seq<char>) -> Seq<char> {
    if s.len() >= 4 && s[0] == '/' && s[1] == '/' && s[2] == '?' && s[3] == '/' {
        s.skip(4)
    } else if s.len() >= 3 && s[0] == '/' && s[1] == '?' && s[2] == '/' {
        s.skip(3)
    } else {
        s
    }
}

/// `s` with a leading drive `X:` turned into `/x`.
pub open spec fn drive_mapped(s: Seq<char>) -> Seq<char> {
    if s.len() >= 2 && (s[0] as u32) < 128 && s[1] == ':' {
        seq!['/', ascii_lower(s[0])] + s.skip(2)
    } else {
        s
    }
}

/// The path under which a container sees the Windows directory `host`.
pub open spec fn windows_mount(host: Seq<char>) -> Seq<char> {
    drive_mapped(unprefixed(slashed(host)))
}

/// The path under which a container sees the Windows directory
/// `host_path`: slashes for backslashes, no extended-path prefix, and
/// `/x` for a drive `X:`.
pub fn windows_mount_path(host_path: &str) -> (r: String)
    ensures
        r@ == windows_mount(host_path@),
{
    let raw = to_chars(host_path);
    let mut s: Vec<char> = Vec::new();
    let mut i: usize = 0;
    while i < raw.len()
        invariant
            i <= raw.len(),
            s@ == slashed(raw@).take(i as int),
        decreases raw.len() - i,
    {
        let c = raw[i];
        s.push(if c == '\\' {
            '/'
        } else {
            c
        });
        assert(s@ =~= slashed(raw@).take(i + 1));
        i += 1;
    }
    assert(s@ =~= slashed(raw@));
    let n = s.len();
    let start: usize = if n >= 4 && s[0] == '/' && s[1] == '/' && s[2] == '?' && s[3] == '/' {
        4
    } else if n >= 3 && s[0] == '/' && s[1] == '?' && s[2] == '/' {
        3
    } else {
        0
    };
    assert(s@.skip(0) =~= s@);
    let ghost u = s@.skip(start as int);
    assert(u == unprefixed(s@));
    let mut out: Vec<char> = Vec::new();
    let mut from: usize = start;
    if n - start >= 2 && (s[start] as u32) < 128 && s[start + 1] == ':' {
        let c = s[start];
        out.push('/');
        out.push(if 'A' <= c && c <= 'Z' {
            ((c as u8) + 32) as char
        } else {
            c
        });
        from = start + 2;
    }
    let ghost head = out@;
    let ghost first = from as int;
    assert(out@ =~= head + s@.subrange(first, from as int));
    while from < n
        invariant
            0 <= first <= from <= n,
            n == s.len(),
            out@ == head + s@.subrange(first, from as int),
        decreases n - from,
    {
        out.push(s[from]);
        assert(out@ =~= head + s@.subrange(first, from + 1));
        from += 1;
    }
    proof {
        assert(s@.subrange(first, n as int) =~= u.skip(first - start));
        assert(u.skip(0) =~= u);
        assert(Seq::<char>::empty() + u =~= u);
        assert(out@ =~= drive_mapped(u));
    }
    from_chars(&out)
}

/// The kinds of backend.
#[derive(Clone, Copy, Debug, PartialEq, Eq, Structural)]
pub enum BackendKind {
    /// The shell of the host.
    Local,
    /// A container of an image.
    Container,
    /// Another host, over `ssh`.
    Remote,
    /// A short-lived pod of a cluster.
    Cluster,
}

/// What the program that runs a command did.
#[derive(Debug)]
pub enum ProcessEvent {
    /// It could not be started.
    SpawnFailed,
    /// Waiting for it failed.
    WaitFailed,
    /// It ended by itself, with or without an exit code.
    Finished { stdout: String, stderr: String, code: Option<i32> },
    /// It was still running `secs` seconds after its start, the limit set for it.
    DeadlineElapsed { secs: u64 },
}

/// What a command that ran to its end left.
#[derive(Debug, Clone)]
pub struct RunOutput {
    pub stdout: String,
    pub stderr: String,
    /// `None` where the process ended without an exit code.
    pub exit_code: Option<i32>,
}

/// Why a command did not run to its end.
#[derive(Clone, Copy, Debug, PartialEq, Eq, Structural)]
pub enum BackendError {
    Spawn,
    Wait,
    Timeout { secs: u64 },
}

/// The outcome of a run: what the command left where it ended by itself,
/// whatever its exit code, and the error otherwise.
pub open spec fn outcome_of(event: ProcessEvent) -> Result<RunOutput, BackendError> {
    match event {
        ProcessEvent::SpawnFailed => Err(BackendError::Spawn),
        ProcessEvent::WaitFailed => Err(BackendError::Wait),
        ProcessEvent::Finished { stdout, stderr, code } => Ok(
            RunOutput { stdout, stderr, exit_code: code },
        ),
        ProcessEvent::DeadlineElapsed { secs } => Err(BackendError::Timeout { secs }),
    }
}

/// The outcome of a run: what the command left where it ended by itself,
/// whatever its exit code, and the error otherwise.
pub fn conclude(event: ProcessEvent) -> (r: Result<RunOutput, BackendError>)
    ensures
        r == outcome_of(event),
{
    match event {
        ProcessEvent::SpawnFailed => Err(BackendError::Spawn),
        ProcessEvent::WaitFailed => Err(BackendError::Wait),
        ProcessEvent::Finished { stdout, stderr, code } => Ok(
            RunOutput { stdout, stderr, exit_code: code },
        ),
        ProcessEvent::DeadlineElapsed { secs } => Err(BackendError::Timeout { secs }),
    }
}

/// What is left to do once the time limit of a run has passed.
#[derive(Clone, Copy, Debug, PartialEq, Eq, Structural)]
pub enum Cleanup {
    /// End the program by force.
    Kill,
    /// Wait for the program to be gone.
    Reap,
    /// Delete the pod that the run started, ignoring failure.
    DeletePod,
}

/// The steps to take, in order, once the time limit of a run has passed.
pub open spec fn timeout_steps(kind: BackendKind) -> Seq<Cleanup> {
    if kind == BackendKind::Cluster {
        seq![Cleanup::Kill, Cleanup::Reap, Cleanup::DeletePod]
    } else {
        seq![Cleanup::Kill, Cleanup::Reap]
    }
}

/// The steps to take, in order, once the time limit of a run has passed:
/// the program is ended by force, and a cluster pod is deleted after it.
pub fn on_timeout(kind: BackendKind) -> (r: Vec<Cleanup>)
    ensures
        r@ == timeout_steps(kind),
{
    let mut steps: Vec<Cleanup> = Vec::new();
    steps.push(Cleanup::Kill);
    steps.push(Cleanup::Reap);
    if kind == BackendKind::Cluster {
        steps.push(Cleanup::DeletePod);
    }
    assert(steps@ =~= timeout_steps(kind));
    steps
}

/// The name of a kind of backend in messages.
pub open spec fn label(kind: BackendKind) -> Seq<char> {
    match kind {
        BackendKind::Local => "local"@,
        BackendKind::Container => "docker"@,
        BackendKind::Remote => "ssh"@,
        BackendKind::Cluster => "kubernetes"@,
    }
}

/// The word for the program in the message of a failed wait.
pub open spec fn child_word(kind: BackendKind) -> Seq<char> {
    match kind {
        BackendKind::Local => ""@,
        BackendKind::Container => "docker "@,
        BackendKind::Remote => "ssh "@,
        BackendKind::Cluster => "kubectl "@,
    }
}

/// The word for the program in the message of a failed start.
pub open spec fn process_word(kind: BackendKind) -> Seq<char> {
    match kind {
        BackendKind::Local => ""@,
        BackendKind::Container => ""@,
        BackendKind::Remote => "ssh "@,
        BackendKind::Cluster => "kubectl "@,
    }
}

/// The error of a backend of `kind` as one line of text.
pub open spec fn error_text(e: BackendError, kind: BackendKind) -> Seq<char> {
    match e {
        BackendError::Spawn => label(kind) + " backend failed to spawn "@ + process_word(kind)
            + "process"@,
        BackendError::Wait => "waiting for "@ + child_word(kind) + "child failed"@,
        BackendError::Timeout { secs } => label(kind) + " backend timed out after "@ + decimal(
            secs as nat,
        ) + "s"@,
    }
}

/// The name of a kind of backend in messages.
fn label_of(kind: BackendKind) -> (r: &'static str)
    ensures
        r@ == label(kind),
{
    match kind {
        BackendKind::Local => "local",
        BackendKind::Container => "docker",
        BackendKind::Remote => "ssh",
        BackendKind::Cluster => "kubernetes",
    }
}

/// The word for the program in the message of a failed wait.
fn child_word_of(kind: BackendKind) -> (r: &'static str)
    ensures
        r@ == child_word(kind),
{
    match kind {
        BackendKind::Local => "",
        BackendKind::Container => "docker ",
        BackendKind::Remote => "ssh ",
        BackendKind::Cluster => "kubectl ",
    }
}

/// The word for the program in the message of a failed start.
fn process_word_of(kind: BackendKind) -> (r: &'static str)
    ensures
        r@ == process_word(kind),
{
    match kind {
        BackendKind::Local => "",
        BackendKind::Container => "",
        BackendKind::Remote => "ssh ",
        BackendKind::Cluster => "kubectl ",
    }
}

impl BackendError {
    /// The error as one line of text, for a backend of `kind`.
    pub fn message(&self, kind: BackendKind) -> (r: String)
        ensures
            r@ == error_text(*self, kind),
    {
        let mut s = String::from_str(label_of(kind));
        match self {
            BackendError::Spawn => {
                s.append(" backend failed to spawn ");
                s.append(process_word_of(kind));
                s.append("process");
                s
            },
            BackendError::Wait => {
                let mut w = String::from_str("waiting for ");
                w.append(child_word_of(kind));
                w.append("child failed");
                w
            },
            BackendError::Timeout { secs } => {
                s.append(" backend timed out after ");
                s.append(decimal_string(*secs as u128).as_str());
                s.append("s");
                s
            },
        }
    }
}

} // verus!
