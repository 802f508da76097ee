//! Batch command execution (with optional live streaming).

use crate::client::Dispatch;
use crate::codec::{lossy_text, utf8_lossy};
use crate::config::{duration_text, Timeout};
use crate::conn::{argv_of, Conn};
use crate::error::{error_text, Error};
use crate::inventory::resolution;
use crate::ordered::{ascending, OrderedMap};
use crate::outcome::{
    all_succeeded, by_host, every_success, failed, failures, failures_are_the_hosts_that_failed,
    the_last_outcome_counts, Outcome,
};
use crate::shell::{quoted, quoting_is_read_back, read_word, shell_quote};
use crate::text::views;
use vstd::prelude::*;
use vstd::utf8::{encode_utf8, valid_utf8};

verus! {

/// Which output stream a streamed chunk came from.
#[derive(Debug, Clone, Copy, PartialEq, Eq, Structural)]
pub enum StreamType {
    Stdout,
    Stderr,
}

/// Result of running a command on one host.
#[derive(Debug, Clone)]
pub struct HostResult {
    pub host: String,
    /// Command exited 0 and the connection succeeded.
    pub success: bool,
    /// Remote exit code (`-1` if it could not be determined).
    pub exit_code: i32,
    pub stdout: String,
    pub stderr: String,
    /// Connection/timeout error (set when we never got an exit code).
    pub error: Option<String>,
}

/// What a [`HostResult`] holds.
#[verifier::ext_equal]
pub struct HostResultView {
    pub host: Seq<char>,
    pub success: bool,
    pub exit_code: int,
    pub stdout: Seq<char>,
    pub stderr: Seq<char>,
    pub error: Option<Seq<char>>,
}

/// What an optional string holds.
pub open spec fn optional(s: Option<String>) -> Option<Seq<char>> {
    match s {
        Some(t) => Some(t@),
        None => None,
    }
}

impl DeepView for HostResult {
    type V = HostResultView;

    open spec fn deep_view(&self) -> HostResultView {
        HostResultView {
            host: self.host@,
            success: self.success,
            exit_code: self.exit_code as int,
            stdout: self.stdout@,
            stderr: self.stderr@,
            error: optional(self.error),
        }
    }
}

impl Outcome for HostResult {
    open spec fn succeeded(v: HostResultView) -> bool {
        v.success
    }

    open spec fn about(v: HostResultView) -> Seq<char> {
        v.host
    }

    fn ok(&self) -> bool {
        self.success
    }

    fn host_name(&self) -> &String {
        &self.host
    }
}

/// Aggregate result across all targeted hosts (keyed by host).
#[derive(Debug, Clone)]
pub struct ExecResult {
    pub hosts: OrderedMap<HostResult>,
}

impl ExecResult {
    /// Whether the command succeeded on every host.
    pub fn all_success(&self) -> (r: bool)
        ensures
            r == all_succeeded::<HostResult>(self.hosts.entries()),
    {
        every_success(&self.hosts)
    }

    /// The hosts on which it did not.
    pub fn failed_hosts(&self) -> (r: Vec<String>)
        ensures
            views(r@) == failures::<HostResult>(self.hosts.entries()),
    {
        failed(&self.hosts)
    }
}

// ---------------------------------------------------------------------------
// The builder
// ---------------------------------------------------------------------------

/// The stream of a call that streams nothing.
#[derive(Debug, Clone, Copy)]
pub struct Silent;

/// Builder for an [`Dispatch::exec`] call. `S` is the callback that output is
/// streamed to.
pub struct ExecBuilder<'a, S> {
    pub dispatch: &'a Dispatch,
    pub patterns: Vec<String>,
    pub command: String,
    pub parallel: usize,
    pub timeout: Timeout,
    pub env: OrderedMap<String>,
    pub dir: Option<String>,
    pub input: Option<String>,
    pub stream: Option<S>,
}

/// The larger of `n` and 1.
pub open spec fn at_least_one(n: usize) -> usize {
    if n == 0 {
        1
    } else {
        n
    }
}

/// The larger of `n` and 1.
pub fn one_or_more(n: usize) -> (r: usize)
    ensures
        r == at_least_one(n),
{
    if n == 0 {
        1
    } else {
        n
    }
}

impl<'a> ExecBuilder<'a, Silent> {
    pub(crate) fn new(dispatch: &'a Dispatch, patterns: Vec<String>, command: String) -> (r: Self)
        ensures
            r.dispatch == dispatch,
            r.patterns == patterns,
            r.command == command,
            r.parallel == dispatch.config.parallel,
            r.timeout == dispatch.config.timeout,
            r.env.entries().len() == 0,
            r.dir is None,
            r.input is None,
            r.stream is None,
    {
        ExecBuilder {
            dispatch,
            patterns,
            command,
            parallel: dispatch.config.parallel,
            timeout: dispatch.config.timeout,
            env: OrderedMap::new(),
            dir: None,
            input: None,
            stream: None,
        }
    }
}

impl<'a, S> ExecBuilder<'a, S> {
    /// Max hosts run concurrently.
    pub fn parallel(self, n: usize) -> (r: Self)
        ensures
            r == (ExecBuilder { parallel: at_least_one(n), ..self }),
    {
        ExecBuilder { parallel: one_or_more(n), ..self }
    }

    /// Per-host timeout.
    pub fn timeout(self, d: Timeout) -> (r: Self)
        ensures
            r == (ExecBuilder { timeout: d, ..self }),
    {
        ExecBuilder { timeout: d, ..self }
    }

    /// Export an environment variable for the command.
    pub fn env(self, key: &str, value: &str) -> (r: Self)
        ensures
            r.env.deep_view() == self.env.deep_view().insert(key@, value@),
            r == (ExecBuilder { env: r.env, ..self }),
    {
        let mut env: OrderedMap<String> = self.env;
        env.insert(key.to_owned(), value.to_owned());
        ExecBuilder { env, ..self }
    }

    /// Working directory for the command (`cd` before running).
    pub fn dir(self, dir: &str) -> (r: Self)
        ensures
            r.dir matches Some(d) && d@ == dir@,
            r == (ExecBuilder { dir: r.dir, ..self }),
    {
        ExecBuilder { dir: Some(dir.to_owned()), ..self }
    }

    /// Feed `input` to the command's stdin.
    pub fn input(self, input: &str) -> (r: Self)
        ensures
            r.input matches Some(i) && i@ == input@,
            r == (ExecBuilder { input: r.input, ..self }),
    {
        ExecBuilder { input: Some(input.to_owned()), ..self }
    }

    /// Stream stdout/stderr live: `cb(host, stream_type, chunk)` is called for
    /// every chunk as it arrives. The chunks are still accumulated into the
    /// final [`HostResult`] too.
    pub fn stream<F>(self, cb: F) -> (r: ExecBuilder<'a, F>) where
        F: Fn(&str, StreamType, &[u8]) + Send + Sync + 'static,

        ensures
            r.stream == Some(cb),
            r.dispatch == self.dispatch,
            r.patterns == self.patterns,
            r.command == self.command,
            r.parallel == self.parallel,
            r.timeout == self.timeout,
            r.env == self.env,
            r.dir == self.dir,
            r.input == self.input,
    {
        ExecBuilder {
            dispatch: self.dispatch,
            patterns: self.patterns,
            command: self.command,
            parallel: self.parallel,
            timeout: self.timeout,
            env: self.env,
            dir: self.dir,
            input: self.input,
            stream: Some(cb),
        }
    }

    /// Resolves the hosts and settles what is to be done on each of them.
    pub fn plan(&self) -> (r: Result<ExecPlan, Error>)
        ensures
            match resolution(self.dispatch.inventory@, views(self.patterns@)) {
                Ok(hosts) => {
                    &&& r matches Ok(p)
                    &&& views(p.hosts@) == hosts
                    &&& p.script@ == script_of(
                        self.command@,
                        self.env.entries(),
                        optional(self.dir),
                    )
                    &&& p.input == self.input
                    &&& p.streaming == (self.stream is Some)
                    &&& p.timeout == self.timeout
                    &&& p.parallel == self.parallel
                },
                Err(e) => r matches Err(x) && x@ == e,
            },
    {
        let hosts: Vec<String> = match self.dispatch.inventory.resolve(self.patterns.as_slice()) {
            Ok(hosts) => hosts,
            Err(e) => return Err(e),
        };
        Ok(
            ExecPlan {
                hosts,
                script: build_script(self.command.as_str(), &self.env, &self.dir),
                input: self.input.clone(),
                streaming: self.stream.is_some(),
                timeout: self.timeout,
                parallel: self.parallel,
            },
        )
    }
}

/// What an [`ExecBuilder`] comes to: the hosts, and what each of them is to run.
#[derive(Debug, Clone)]
pub struct ExecPlan {
    pub hosts: Vec<String>,
    /// The script that runs the command.
    pub script: String,
    /// What the command reads from its stdin.
    pub input: Option<String>,
    /// Whether the output is streamed.
    pub streaming: bool,
    /// How long one host may take.
    pub timeout: Timeout,
    /// How many hosts run at once.
    pub parallel: usize,
}

// ---------------------------------------------------------------------------
// The script
// ---------------------------------------------------------------------------

/// The commands that export the variables of `env`, in order.
pub open spec fn exports_of(env: Seq<(Seq<char>, Seq<char>)>) -> Seq<char>
    decreases env.len(),
{
    if env.len() == 0 {
        Seq::empty()
    } else {
        exports_of(env.drop_last()) + "export "@ + env.last().0 + "="@ + quoted(env.last().1)
            + "; "@
    }
}

/// The script that runs `command` with the variables of `env`, in `dir`.
pub open spec fn script_of(
    command: Seq<char>,
    env: Seq<(Seq<char>, Seq<char>)>,
    dir: Option<Seq<char>>,
) -> Seq<char> {
    (match dir {
        Some(d) => "cd "@ + quoted(d) + " && "@,
        None => Seq::empty(),
    }) + exports_of(env) + command
}

/// Wrap the user command with optional `cd` / env exports.
pub fn build_script(cmd: &str, env: &OrderedMap<String>, dir: &Option<String>) -> (r: String)
    ensures
        r@ == script_of(cmd@, env.entries(), optional(*dir)),
{
    let mut s = String::new();
    if let Some(d) = dir {
        s.append("cd ");
        s.append(shell_quote(d.as_str()).as_str());
        s.append(" && ");
    }
    let ghost head = match optional(*dir) {
        Some(d) => "cd "@ + quoted(d) + " && "@,
        None => Seq::empty(),
    };
    assert(s@ =~= head);
    let n: usize = env.len();
    let mut i: usize = 0;
    assert(s@ =~= head + exports_of(env.entries().take(0)));
    while i < n
        invariant
            i <= n,
            n == env.entries().len(),
            s@ == head + exports_of(env.entries().take(i as int)),
        decreases n - i,
    {
        let ghost before = s@;
        let key: &String = env.key(i);
        let value: &String = env.value(i);
        s.append("export ");
        s.append(key.as_str());
        s.append("=");
        s.append(shell_quote(value.as_str()).as_str());
        s.append("; ");
        proof {
            let entries = env.entries();
            assert(entries.take(i + 1).drop_last() =~= entries.take(i as int));
            assert(entries.take(i + 1).last() == entries[i as int]);
            assert(s@ =~= head + exports_of(entries.take(i + 1)));
        }
        i = i + 1;
    }
    assert(env.entries().take(n as int) =~= env.entries());
    s.append(cmd);
    s
}

/// The shell changes to exactly the given directory, whatever its name holds.
pub proof fn the_directory_is_read_back(
    command: Seq<char>,
    env: Seq<(Seq<char>, Seq<char>)>,
    dir: Seq<char>,
)
    ensures
        script_of(command, env, Some(dir)) == "cd "@ + quoted(dir) + " && "@ + exports_of(env)
            + command,
        read_word(script_of(command, env, Some(dir)).skip("cd "@.len() as int), false) == Some(
            (dir, " && "@ + exports_of(env) + command),
        ),
{
    reveal_strlit(" && ");
    let rest = " && "@ + exports_of(env) + command;
    assert(rest[0] == ' ');
    quoting_is_read_back(dir, rest);
    assert(script_of(command, env, Some(dir)).skip("cd "@.len() as int) =~= quoted(dir) + rest);
}

proof fn lemma_exports_concat(a: Seq<(Seq<char>, Seq<char>)>, b: Seq<(Seq<char>, Seq<char>)>)
    ensures
        exports_of(a + b) == exports_of(a) + exports_of(b),
    decreases b.len(),
{
    if b.len() == 0 {
        assert(a + b =~= a);
        assert(exports_of(a) + exports_of(b) =~= exports_of(a));
    } else {
        assert((a + b).drop_last() =~= a + b.drop_last());
        lemma_exports_concat(a, b.drop_last());
        assert(exports_of(a + b) =~= exports_of(a) + exports_of(b));
    }
}

/// The shell gives each variable exactly its value, whatever the value holds, and
/// goes on with the variables that follow.
pub proof fn the_values_are_read_back(env: Seq<(Seq<char>, Seq<char>)>, i: int)
    requires
        0 <= i < env.len(),
    ensures
        ({
            let head = exports_of(env.take(i)) + "export "@ + env[i].0 + "="@;
            let rest = "; "@ + exports_of(env.skip(i + 1));
            &&& exports_of(env) == head + quoted(env[i].1) + rest
            &&& read_word(exports_of(env).skip(head.len() as int), false) == Some((env[i].1, rest))
        }),
{
    reveal_strlit("; ");
    let head = exports_of(env.take(i)) + "export "@ + env[i].0 + "="@;
    let rest = "; "@ + exports_of(env.skip(i + 1));
    assert(rest[0] == ';');
    assert(env =~= env.take(i + 1) + env.skip(i + 1));
    lemma_exports_concat(env.take(i + 1), env.skip(i + 1));
    assert(env.take(i + 1).drop_last() =~= env.take(i));
    assert(exports_of(env) =~= head + quoted(env[i].1) + rest);
    quoting_is_read_back(env[i].1, rest);
    assert(exports_of(env).skip(head.len() as int) =~= quoted(env[i].1) + rest);
}

// ---------------------------------------------------------------------------
// One session
// ---------------------------------------------------------------------------

/// How a command is started in a session.
#[derive(Debug, Clone)]
pub struct SessionCommand {
    pub program: &'static str,
    pub args: Vec<String>,
    /// Whether the command's stdin is fed; it is empty otherwise.
    pub piped_stdin: bool,
}

/// How to start `script` in a session, with `input` for its stdin.
pub fn session_command(conn: &Conn, script: &str, input: &Option<String>) -> (r: SessionCommand)
    ensures
        r.program@ == argv_of(conn.sudo, script@).0,
        views(r.args@) == argv_of(conn.sudo, script@).1,
        r.piped_stdin == (*input is Some),
{
    let (program, args): (&'static str, Vec<String>) = conn.shell_argv(script);
    SessionCommand { program, args, piped_stdin: input.is_some() }
}

/// What one read of a command's output comes to: the chunk that it brought, which
/// is to be handed to the stream and read on after, or `None` where the output is
/// at its end. `read` is how many bytes the read put at the front of `buf`, or
/// `None` where it failed. Every chunk is kept in `acc`.
pub fn pump_read<'b>(acc: &mut Vec<u8>, buf: &'b [u8], read: Option<usize>) -> (r: Option<
    &'b [u8],
>)
    requires
        read matches Some(n) ==> n <= buf@.len(),
    ensures
        match pumped(buf@, read) {
            Some(chunk) => r matches Some(c) && c@ == chunk && final(acc)@ == old(acc)@ + chunk,
            None => r is None && final(acc)@ == old(acc)@,
        },
{
    let n: usize = match read {
        Some(n) => n,
        None => return None,
    };
    if n == 0 {
        return None;
    }
    let chunk: &[u8] = vstd::slice::slice_subrange(buf, 0, n);
    acc.extend_from_slice(chunk);
    assert(chunk@ =~= buf@.take(n as int));
    assert(acc@ =~= old(acc)@ + chunk@);
    Some(chunk)
}

/// The chunk that one read brought: the first `read` bytes of `buf`, or none
/// where it brought no bytes or failed.
pub open spec fn pumped(buf: Seq<u8>, read: Option<usize>) -> Option<Seq<u8>> {
    match read {
        Some(n) => if n == 0 {
            None
        } else {
            Some(buf.take(n as int))
        },
        None => None,
    }
}

/// The result of a command that came to its end.
pub open spec fn session_view(
    host: Seq<char>,
    success: bool,
    code: Option<i32>,
    out: Seq<u8>,
    err: Seq<u8>,
) -> HostResultView {
    HostResultView {
        host,
        success,
        exit_code: exit_number(code),
        stdout: lossy_text(out),
        stderr: lossy_text(err),
        error: None,
    }
}

/// The exit code, or -1 where there is none.
pub open spec fn exit_number(code: Option<i32>) -> int {
    match code {
        Some(c) => c as int,
        None => -1,
    }
}

/// The exit code, or -1 where there is none.
pub fn exit_code(code: Option<i32>) -> (r: i32)
    ensures
        r == exit_number(code),
{
    match code {
        Some(c) => c,
        None => -1,
    }
}

/// The result of a command that came to its end with the given status, and that
/// wrote `out` and `err`. Output that is valid UTF-8 is kept as it is.
pub fn session_result(
    host: &str,
    success: bool,
    code: Option<i32>,
    out: &[u8],
    err: &[u8],
) -> (r: HostResult)
    ensures
        r.deep_view() == session_view(host@, success, code, out@, err@),
        valid_utf8(out@) ==> encode_utf8(r.stdout@) == out@,
        valid_utf8(err@) ==> encode_utf8(r.stderr@) == err@,
{
    HostResult {
        host: host.to_owned(),
        success,
        exit_code: exit_code(code),
        stdout: utf8_lossy(out),
        stderr: utf8_lossy(err),
        error: None,
    }
}

/// The result for a host that gave none, with the reason.
pub open spec fn failed_view(host: Seq<char>, reason: Seq<char>) -> HostResultView {
    broken_view(host, reason, Seq::empty(), Seq::empty())
}

/// The result for a host whose command did not come to its end, with the reason
/// and with the text of what the command wrote until then.
pub open spec fn broken_view(
    host: Seq<char>,
    reason: Seq<char>,
    stdout: Seq<char>,
    stderr: Seq<char>,
) -> HostResultView {
    HostResultView { host, success: false, exit_code: -1, stdout, stderr, error: Some(reason) }
}

fn broken_result(host: &str, reason: String, stdout: String, stderr: String) -> (r: HostResult)
    ensures
        r.deep_view() == broken_view(host@, reason@, stdout@, stderr@),
{
    HostResult {
        host: host.to_owned(),
        success: false,
        exit_code: -1,
        stdout,
        stderr,
        error: Some(reason),
    }
}

/// The text of the output that a command leaves where it does not come to its end:
/// all that was streamed of it until then, and nothing where nothing is streamed.
pub open spec fn left_text(streaming: bool, bytes: Seq<u8>) -> Seq<char> {
    if streaming {
        lossy_text(bytes)
    } else {
        Seq::empty()
    }
}

fn left_output(streaming: bool, bytes: &[u8]) -> (r: String)
    ensures
        r@ == left_text(streaming, bytes@),
        streaming && valid_utf8(bytes@) ==> encode_utf8(r@) == bytes@,
{
    if streaming {
        utf8_lossy(bytes)
    } else {
        String::new()
    }
}

/// The result for one host, from what came of running the command there; `None`
/// stands for a command that did not finish in time, `shown` for that time, and
/// `stdout` and `stderr` for the text of the output that it leaves.
pub fn timed_result(
    host: &str,
    outcome: Option<Result<HostResult, Error>>,
    shown: &str,
    stdout: String,
    stderr: String,
) -> (r: Result<HostResult, Error>)
    ensures
        match outcome {
            Some(x) => r == x,
            None => r matches Ok(hr) && hr.deep_view() == broken_view(
                host@,
                "timed out after "@ + shown@,
                stdout@,
                stderr@,
            ),
        },
{
    match outcome {
        Some(x) => x,
        None => Ok(
            broken_result(host, "timed out after ".to_owned().concat(shown), stdout, stderr),
        ),
    }
}

/// The result for one host, from what came of running the command there within
/// `timeout`; `None` stands for a command that did not finish in time. `out` and
/// `err` are what it had written to its stdout and stderr until then. They are in
/// the result where they were streamed.
pub fn run_one_result(
    host: &str,
    outcome: Option<Result<HostResult, Error>>,
    timeout: &Timeout,
    streaming: bool,
    out: &[u8],
    err: &[u8],
) -> (r: Result<HostResult, Error>)
    ensures
        match outcome {
            Some(x) => r == x,
            None => {
                &&& r matches Ok(hr)
                &&& hr.deep_view() == broken_view(
                    host@,
                    "timed out after "@ + duration_text(timeout.secs_view(), timeout.nanos_view()),
                    left_text(streaming, out@),
                    left_text(streaming, err@),
                )
                &&& streaming && valid_utf8(out@) ==> encode_utf8(hr.stdout@) == out@
                &&& streaming && valid_utf8(err@) ==> encode_utf8(hr.stderr@) == err@
            },
        },
{
    timed_result(
        host,
        outcome,
        timeout.text().as_str(),
        left_output(streaming, out),
        left_output(streaming, err),
    )
}

/// The result to report for `host`: the one that it gave, or the error with the
/// text of the output that the command leaves.
pub open spec fn kept_view(
    host: Seq<char>,
    result: Result<HostResult, Error>,
    streaming: bool,
    out: Seq<u8>,
    err: Seq<u8>,
) -> HostResultView {
    match result {
        Ok(hr) => hr.deep_view(),
        Err(e) => broken_view(
            host,
            error_text(e@),
            left_text(streaming, out),
            left_text(streaming, err),
        ),
    }
}

/// The result to report for `host`: the one that it gave, or the error. `out` and
/// `err` are what the command had written to its stdout and stderr before the
/// error. They are in the result where they were streamed.
pub fn kept_result(
    host: &str,
    result: Result<HostResult, Error>,
    streaming: bool,
    out: &[u8],
    err: &[u8],
) -> (r: HostResult)
    ensures
        r.deep_view() == kept_view(host@, result, streaming, out@, err@),
        result is Err && streaming && valid_utf8(out@) ==> encode_utf8(r.stdout@) == out@,
        result is Err && streaming && valid_utf8(err@) ==> encode_utf8(r.stderr@) == err@,
{
    match result {
        Ok(hr) => hr,
        Err(e) => broken_result(
            host,
            e.message(),
            left_output(streaming, out),
            left_output(streaming, err),
        ),
    }
}

/// Whether a result holds the text of everything that the command wrote.
pub open spec fn holds_output(r: HostResultView, out: Seq<u8>, err: Seq<u8>) -> bool {
    r.stdout == lossy_text(out) && r.stderr == lossy_text(err)
}

/// The output that was streamed is in the result that is reported in the end,
/// however the command ends: by itself, by running out of time, or by an error.
pub proof fn streamed_output_is_kept_however_a_command_ends(
    host: Seq<char>,
    success: bool,
    code: Option<i32>,
    reason: Seq<char>,
    e: Error,
    out: Seq<u8>,
    err: Seq<u8>,
)
    ensures
        holds_output(session_view(host, success, code, out, err), out, err),
        holds_output(
            broken_view(host, reason, left_text(true, out), left_text(true, err)),
            out,
            err,
        ),
        holds_output(kept_view(host, Err(e), true, out, err), out, err),
{
}

/// A command whose output is not streamed, and that does not come to its end, is
/// reported with the reason alone.
pub proof fn unstreamed_output_needs_an_end(
    host: Seq<char>,
    reason: Seq<char>,
    e: Error,
    out: Seq<u8>,
    err: Seq<u8>,
)
    ensures
        broken_view(host, reason, left_text(false, out), left_text(false, err)) == failed_view(
            host,
            reason,
        ),
        kept_view(host, Err(e), false, out, err) == failed_view(host, error_text(e@)),
{
}

// ---------------------------------------------------------------------------
// All hosts
// ---------------------------------------------------------------------------

/// The result to report for `host`: the one that it gave, or the error.
pub open spec fn reported(host: Seq<char>, r: Result<HostResult, Error>) -> HostResultView {
    match r {
        Ok(hr) => hr.deep_view(),
        Err(e) => failed_view(host, error_text(e@)),
    }
}

/// What is reported for each of `results`.
pub open spec fn reports(results: Seq<(String, Result<HostResult, Error>)>) -> Seq<
    (Seq<char>, HostResultView),
> {
    results.map_values(|r: (String, Result<HostResult, Error>)| (r.0@, reported(r.0@, r.1)))
}

impl ExecResult {
    /// The aggregate of the results of all hosts.
    pub fn collect(results: Vec<(String, Result<HostResult, Error>)>) -> (r: Self)
        ensures
            r.hosts.deep_view() == by_host(reports(results@)),
            ascending(r.hosts.entries()),
    {
        let mut hosts: OrderedMap<HostResult> = OrderedMap::new();
        let ghost all = results@;
        let ghost mut n: int = 0;
        assert(all.take(0) =~= Seq::empty());
        for (host, result) in it: results
            invariant
                it.seq() == all,
                n == it.index(),
                hosts.deep_view() == by_host(reports(all.take(n))),
                ascending(hosts.entries()),
        {
            let hr: HostResult = match result {
                Ok(hr) => hr,
                Err(e) => broken_result(host.as_str(), e.message(), String::new(), String::new()),
            };
            hosts.insert(host, hr);
            proof {
                assert(reports(all.take(n + 1)).drop_last() =~= reports(all.take(n)));
                assert(all.take(n + 1).last() == (host, result));
                n = n + 1;
            }
        }
        assert(all.take(all.len() as int) =~= all);
        ExecResult { hosts }
    }
}

/// What is handed to the stream over a number of reads: the chunks before the
/// first read that brings none.
pub open spec fn streamed(reads: Seq<(Seq<u8>, Option<usize>)>) -> Seq<Seq<u8>>
    decreases reads.len(),
{
    if reads.len() == 0 {
        Seq::empty()
    } else {
        match pumped(reads[0].0, reads[0].1) {
            Some(chunk) => seq![chunk] + streamed(reads.drop_first()),
            None => Seq::empty(),
        }
    }
}

/// What is kept over a number of reads, `acc` having been kept before.
pub open spec fn kept(acc: Seq<u8>, reads: Seq<(Seq<u8>, Option<usize>)>) -> Seq<u8>
    decreases reads.len(),
{
    if reads.len() == 0 {
        acc
    } else {
        match pumped(reads[0].0, reads[0].1) {
            Some(chunk) => kept(acc + chunk, reads.drop_first()),
            None => acc,
        }
    }
}

/// The output that is kept is the streamed chunks, put together in order.
pub proof fn streamed_chunks_are_kept(acc: Seq<u8>, reads: Seq<(Seq<u8>, Option<usize>)>)
    ensures
        kept(acc, reads) == acc + streamed(reads).flatten(),
    decreases reads.len(),
{
    if reads.len() == 0 {
        assert(streamed(reads).flatten() =~= Seq::<u8>::empty());
        assert(acc + Seq::<u8>::empty() =~= acc);
    } else {
        match pumped(reads[0].0, reads[0].1) {
            Some(chunk) => {
                let rest = reads.drop_first();
                streamed_chunks_are_kept(acc + chunk, rest);
                let all = seq![chunk] + streamed(rest);
                assert(all.first() == chunk);
                assert(all.drop_first() =~= streamed(rest));
                assert(all.flatten() == chunk + streamed(rest).flatten());
                assert((acc + chunk) + streamed(rest).flatten() =~= acc + all.flatten());
            },
            None => {
                assert(streamed(reads).flatten() =~= Seq::<u8>::empty());
                assert(acc + Seq::<u8>::empty() =~= acc);
            },
        }
    }
}

// ---------------------------------------------------------------------------
// Laws
// ---------------------------------------------------------------------------

/// A limit on the hosts at work is the number that is given, and never zero.
pub proof fn limits_are_never_zero(n: usize)
    ensures
        at_least_one(n) >= 1,
        n >= 1 ==> at_least_one(n) == n,
        at_least_one(0) == 1,
{
}

/// What an optional string holds is there exactly where the string is.
pub proof fn optional_strings_are_viewed(s: String)
    ensures
        optional(Some(s)) == Some(s@),
        optional(None) is None,
{
}

/// With or without a directory, a script exports every variable and then runs the
/// command: without one that is all it does, with one it changes there before.
pub proof fn scripts_export_everything_and_run_the_command(
    command: Seq<char>,
    env: Seq<(Seq<char>, Seq<char>)>,
    dir: Seq<char>,
)
    ensures
        script_of(command, env, None) == exports_of(env) + command,
        script_of(command, env, Some(dir)) == "cd "@ + quoted(dir) + " && "@ + script_of(
            command,
            env,
            None,
        ),
        script_of(command, Seq::empty(), None) == command,
{
    let none = Seq::<(Seq<char>, Seq<char>)>::empty();
    assert(script_of(command, env, None) =~= exports_of(env) + command);
    assert(script_of(command, env, Some(dir)) =~= "cd "@ + quoted(dir) + " && "@ + script_of(
        command,
        env,
        None,
    ));
    assert(script_of(command, none, None) =~= command);
}

/// Variables are exported one by one, in order, each with its name, an `=`, its
/// quoted value and a `;`.
pub proof fn variables_are_exported_one_by_one(
    a: Seq<(Seq<char>, Seq<char>)>,
    name: Seq<char>,
    value: Seq<char>,
    b: Seq<(Seq<char>, Seq<char>)>,
)
    ensures
        exports_of(Seq::empty()).len() == 0,
        exports_of(seq![(name, value)]) == "export "@ + name + "="@ + quoted(value) + "; "@,
        exports_of(a + b) == exports_of(a) + exports_of(b),
{
    let none = Seq::<(Seq<char>, Seq<char>)>::empty();
    assert(seq![(name, value)].drop_last() =~= none);
    assert(exports_of(none) =~= Seq::<char>::empty());
    assert(exports_of(seq![(name, value)]) =~= "export "@ + name + "="@ + quoted(value) + "; "@);
    lemma_exports_concat(a, b);
}

/// A read that brings bytes gives exactly those bytes; one that brings none, or
/// fails, ends the output.
pub proof fn chunks_are_the_bytes_that_were_read(buf: Seq<u8>, n: usize)
    requires
        n <= buf.len(),
    ensures
        pumped(buf, None) is None,
        n == 0 ==> pumped(buf, Some(n)) is None,
        n > 0 ==> {
            &&& pumped(buf, Some(n)) matches Some(chunk)
            &&& chunk.len() == n
            &&& forall|i: int| 0 <= i < n ==> #[trigger] chunk[i] == buf[i]
        },
{
}

/// A command that came to its end is reported with its status, its exit code, or -1
/// where it has none, and both outputs, each in its place.
pub proof fn finished_commands_are_reported_in_full(
    host: Seq<char>,
    success: bool,
    code: Option<i32>,
    out: Seq<u8>,
    err: Seq<u8>,
)
    ensures
        ({
            let v = session_view(host, success, code, out, err);
            &&& v.host == host
            &&& v.success == success
            &&& code is Some ==> v.exit_code == code->Some_0
            &&& code is None ==> v.exit_code == -1
            &&& v.stdout == lossy_text(out)
            &&& v.stderr == lossy_text(err)
            &&& v.error is None
        }),
        code is Some ==> exit_number(code) == code->Some_0,
        code is None ==> exit_number(code) == -1,
{
}

/// A command that did not come to its end is reported as no success, without an
/// exit code, with the reason, and with what it leaves of its outputs.
pub proof fn unfinished_commands_are_reported_with_the_reason(
    host: Seq<char>,
    reason: Seq<char>,
    e: Error,
    streaming: bool,
    out: Seq<u8>,
    err: Seq<u8>,
)
    ensures
        ({
            let v = broken_view(
                host,
                reason,
                left_text(streaming, out),
                left_text(streaming, err),
            );
            &&& v.host == host
            &&& !v.success
            &&& v.exit_code == -1
            &&& v.error == Some(reason)
            &&& streaming ==> v.stdout == lossy_text(out) && v.stderr == lossy_text(err)
            &&& !streaming ==> v.stdout.len() == 0 && v.stderr.len() == 0
        }),
        ({
            let v = kept_view(host, Err(e), streaming, out, err);
            &&& v.host == host
            &&& !v.success
            &&& v.exit_code == -1
            &&& v.error == Some(error_text(e@))
            &&& streaming ==> v.stdout == lossy_text(out) && v.stderr == lossy_text(err)
            &&& !streaming ==> v.stdout.len() == 0 && v.stderr.len() == 0
        }),
{
}

/// Whether `v` holds all that `hr` does.
pub open spec fn shows_result(v: HostResultView, hr: HostResult) -> bool {
    &&& v.host == hr.host@
    &&& v.success == hr.success
    &&& v.exit_code == hr.exit_code
    &&& v.stdout == hr.stdout@
    &&& v.stderr == hr.stderr@
    &&& match hr.error {
        Some(e) => v.error == Some(e@),
        None => v.error is None,
    }
}

/// The aggregate holds for each host the very result that it gave. For a host that
/// gave none it holds the error, no output and no exit code.
pub proof fn collected_results_are_the_ones_given(
    results: Seq<(String, Result<HostResult, Error>)>,
    i: int,
)
    requires
        0 <= i < results.len(),
        forall|j: int| i < j < results.len() ==> (#[trigger] results[j]).0@ != results[i].0@,
    ensures
        ({
            let v = by_host(reports(results))[results[i].0@];
            match results[i].1 {
                Ok(hr) => shows_result(v, hr),
                Err(e) => {
                    &&& v.host == results[i].0@
                    &&& !v.success
                    &&& v.exit_code == -1
                    &&& v.stdout.len() == 0
                    &&& v.stderr.len() == 0
                    &&& v.error == Some(error_text(e@))
                },
            }
        }),
        reports(results).len() == results.len(),
        reports(results)[i].0 == results[i].0@,
{
    let all = reports(results);
    assert forall|j: int| i < j < all.len() implies (#[trigger] all[j]).0 != results[i].0@ by {
        assert(results[j].0@ != results[i].0@);
    }
    the_last_outcome_counts(all, results[i].0@, i);
}

/// A result that a host gave is kept as it is, streamed or not.
pub proof fn given_results_are_kept(
    host: Seq<char>,
    hr: HostResult,
    streaming: bool,
    out: Seq<u8>,
    err: Seq<u8>,
)
    ensures
        shows_result(kept_view(host, Ok(hr), streaming, out, err), hr),
        shows_result(hr.deep_view(), hr),
{
}

/// A command succeeded exactly on the hosts whose result says so, and the failed
/// hosts are those that the other results name.
pub proof fn hosts_fail_as_their_results_say(
    entries: Seq<(Seq<char>, HostResultView)>,
    h: Seq<char>,
)
    ensures
        all_succeeded::<HostResult>(entries) <==> forall|i: int|
            0 <= i < entries.len() ==> (#[trigger] entries[i]).1.success,
        failures::<HostResult>(entries).contains(h) <==> exists|i: int|
            0 <= i < entries.len() && !(#[trigger] entries[i]).1.success && entries[i].1.host == h,
{
    failures_are_the_hosts_that_failed::<HostResult>(entries, h);
    assert forall|v: HostResultView| #[trigger] HostResult::succeeded(v) == v.success by {}
    assert forall|v: HostResultView| #[trigger] HostResult::about(v) == v.host by {}
    if all_succeeded::<HostResult>(entries) {
        assert forall|i: int| 0 <= i < entries.len() implies (#[trigger] entries[i]).1.success by {
            assert(HostResult::succeeded(entries[i].1));
        }
    }
}

} // verus!
