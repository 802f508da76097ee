//! Batch file transfer (push / pull) via the system `scp` + ssh.

use crate::client::Dispatch;
use crate::codec::{lossy_text, utf8_lossy};
use crate::config::Timeout;
use crate::error::{config_error, error_text, Error, ErrorView};
use crate::exec::{
    at_least_one, exit_code, exit_number, one_or_more, optional, HostResult,
};
use crate::inventory::{resolution, resolution_is_the_set_of_hosts, InventoryView};
use crate::number::{decimal, decimal_text};
use crate::ordered::{ascending, OrderedMap};
use crate::outcome::{
    all_succeeded, by_host, every_success, failed, failures, failures_are_the_hosts_that_failed,
    held, in_time, the_last_outcome_counts, timely, Outcome,
};
use crate::paths::{
    join_path, joined_path, joined_paths_do_not_collide, parent_of, remote_parent,
    starts_with_slash,
};
use crate::shell::{quoted, quoting_is_read_back, read_word, shell_quote};
use crate::text::{trim, trimmed, views};
use vstd::prelude::*;

verus! {

// ---------------------------------------------------------------------------
// Results
// ---------------------------------------------------------------------------

/// Per-host transfer outcome.
#[derive(Debug, Clone)]
pub struct TransferHostResult {
    pub host: String,
    pub success: bool,
    /// Local destination (for `fetch`) or remote destination (for `copy`).
    pub dest: String,
    pub error: Option<String>,
}

/// What a [`TransferHostResult`] holds.
#[verifier::ext_equal]
pub struct TransferView {
    pub host: Seq<char>,
    pub success: bool,
    pub dest: Seq<char>,
    pub error: Option<Seq<char>>,
}

impl DeepView for TransferHostResult {
    type V = TransferView;

    open spec fn deep_view(&self) -> TransferView {
        TransferView {
            host: self.host@,
            success: self.success,
            dest: self.dest@,
            error: optional(self.error),
        }
    }
}

impl Outcome for TransferHostResult {
    open spec fn succeeded(v: TransferView) -> bool {
        v.success
    }

    open spec fn about(v: TransferView) -> Seq<char> {
        v.host
    }

    fn ok(&self) -> bool {
        self.success
    }

    fn host_name(&self) -> &String {
        &self.host
    }
}

/// Aggregate transfer result keyed by host.
#[derive(Debug, Clone)]
pub struct TransferResult {
    pub hosts: OrderedMap<TransferHostResult>,
}

/// The outcome to report for `host`.
pub open spec fn transfer_view(
    host: Seq<char>,
    dest: Seq<char>,
    r: Result<(), Error>,
) -> TransferView {
    match r {
        Ok(_) => TransferView { host, success: true, dest, error: None },
        Err(e) => TransferView { host, success: false, dest, error: Some(error_text(e@)) },
    }
}

/// What is reported for each of `results`.
pub open spec fn reports(results: Seq<(String, String, Result<(), Error>)>) -> Seq<
    (Seq<char>, TransferView),
> {
    results.map_values(
        |r: (String, String, Result<(), Error>)| (r.0@, transfer_view(r.0@, r.1@, r.2)),
    )
}

impl TransferResult {
    /// Whether the transfer succeeded for every host.
    pub fn all_success(&self) -> (r: bool)
        ensures
            r == all_succeeded::<TransferHostResult>(self.hosts.entries()),
    {
        every_success(&self.hosts)
    }

    /// The hosts for which it did not.
    pub fn failed_hosts(&self) -> (r: Vec<String>)
        ensures
            views(r@) == failures::<TransferHostResult>(self.hosts.entries()),
    {
        failed(&self.hosts)
    }
}

/// The aggregate of the outcomes of all hosts: for each the host, the destination
/// and what came of the transfer.
pub fn collect(results: Vec<(String, String, Result<(), Error>)>) -> (r: TransferResult)
    ensures
        r.hosts.deep_view() == by_host(reports(results@)),
        ascending(r.hosts.entries()),
{
    let mut hosts: OrderedMap<TransferHostResult> = OrderedMap::new();
    let ghost all = results@;
    let ghost mut n: int = 0;
    assert(all.take(0) =~= Seq::empty());
    for (host, dest, res) in it: results
        invariant
            it.seq() == all,
            n == it.index(),
            hosts.deep_view() == by_host(reports(all.take(n))),
            ascending(hosts.entries()),
    {
        let hr: TransferHostResult = match res {
            Ok(()) => TransferHostResult {
                host: host.clone(),
                success: true,
                dest,
                error: None,
            },
            Err(e) => TransferHostResult {
                host: host.clone(),
                success: false,
                dest,
                error: Some(e.message()),
            },
        };
        hosts.insert(host, hr);
        proof {
            assert(reports(all.take(n + 1)).drop_last() =~= reports(all.take(n)));
            assert(all.take(n + 1).last() == (host, dest, res));
            n = n + 1;
        }
    }
    assert(all.take(all.len() as int) =~= all);
    TransferResult { hosts }
}

// ---------------------------------------------------------------------------
// scp
// ---------------------------------------------------------------------------

/// The first arguments of every `scp`: never ask, and copy directories where
/// `recursive`.
pub open spec fn scp_options(recursive: bool) -> Seq<Seq<char>> {
    if recursive {
        seq!["-o"@, "BatchMode=yes"@, "-r"@]
    } else {
        seq!["-o"@, "BatchMode=yes"@]
    }
}

/// The `scp` name of a remote path.
pub open spec fn remote_name(host: Seq<char>, path: Seq<char>) -> Seq<char> {
    host + ":"@ + path
}

/// The arguments with which `scp` pushes `src` to `dest` on `host`.
pub open spec fn push_args_of(
    host: Seq<char>,
    src: Seq<char>,
    dest: Seq<char>,
    recursive: bool,
) -> Seq<Seq<char>> {
    scp_options(recursive).push(src).push(remote_name(host, dest))
}

/// The arguments with which `scp` pulls `src` from `host` into `dest_dir`.
pub open spec fn pull_args_of(
    host: Seq<char>,
    src: Seq<char>,
    dest_dir: Seq<char>,
    recursive: bool,
) -> Seq<Seq<char>> {
    scp_options(recursive).push(remote_name(host, src)).push(dest_dir)
}

fn base_scp(recursive: bool) -> (r: Vec<String>)
    ensures
        views(r@) == scp_options(recursive),
{
    let mut r: Vec<String> = Vec::new();
    // Non-interactive; rely on ~/.ssh/config for everything else.
    r.push("-o".to_owned());
    r.push("BatchMode=yes".to_owned());
    if recursive {
        r.push("-r".to_owned());
    }
    assert(views(r@) =~= scp_options(recursive));
    r
}

/// The arguments with which `scp` pushes `src` to `dest` on `host`.
pub fn push_args(host: &str, src: &str, dest: &str, recursive: bool) -> (r: Vec<String>)
    ensures
        views(r@) == push_args_of(host@, src@, dest@, recursive),
{
    let mut r: Vec<String> = base_scp(recursive);
    r.push(src.to_owned());
    r.push(host.to_owned().concat(":").concat(dest));
    assert(views(r@) =~= push_args_of(host@, src@, dest@, recursive));
    r
}

/// The arguments with which `scp` pulls `src` from `host` into `dest_dir`.
pub fn pull_args(host: &str, src: &str, dest_dir: &str, recursive: bool) -> (r: Vec<String>)
    ensures
        views(r@) == pull_args_of(host@, src@, dest_dir@, recursive),
{
    let mut r: Vec<String> = base_scp(recursive);
    r.push(host.to_owned().concat(":").concat(src));
    r.push(dest_dir.to_owned());
    assert(views(r@) =~= pull_args_of(host@, src@, dest_dir@, recursive));
    r
}

/// The error of a program that failed with the exit code `code` and said `stderr`.
pub open spec fn status_error(what: Seq<char>, code: Option<i32>, stderr: Seq<char>) -> ErrorView {
    ErrorView::Config(
        what + " failed (exit "@ + decimal(exit_number(code)) + "): "@ + trimmed(stderr),
    )
}

/// What came of the program `what`, from its status and what it said.
pub fn run_status_text(what: &str, success: bool, code: Option<i32>, stderr: &str) -> (r: Result<
    (),
    Error,
>)
    ensures
        match r {
            Ok(_) => success,
            Err(e) => !success && e@ == status_error(what@, code, stderr@),
        },
{
    if success {
        Ok(())
    } else {
        let text: String = what.to_owned().concat(" failed (exit ").concat(
            decimal_text(exit_code(code)).as_str(),
        ).concat("): ").concat(trim(stderr).as_str());
        Err(Error::Config(text))
    }
}

/// What came of the program `what`, from its status and the bytes that it wrote
/// to its stderr.
pub fn run_status(what: &str, success: bool, code: Option<i32>, stderr: &[u8]) -> (r: Result<
    (),
    Error,
>)
    ensures
        match r {
            Ok(_) => success,
            Err(e) => !success && e@ == status_error(what@, code, lossy_text(stderr@)),
        },
{
    run_status_text(what, success, code, utf8_lossy(stderr).as_str())
}

/// What came of an `scp` that pushes.
pub fn push_status(success: bool, code: Option<i32>, stderr: &[u8]) -> (r: Result<(), Error>)
    ensures
        match r {
            Ok(_) => success,
            Err(e) => !success && e@ == status_error("scp push"@, code, lossy_text(stderr@)),
        },
{
    run_status("scp push", success, code, stderr)
}

/// What came of an `scp` that pulls.
pub fn pull_status(success: bool, code: Option<i32>, stderr: &[u8]) -> (r: Result<(), Error>)
    ensures
        match r {
            Ok(_) => success,
            Err(e) => !success && e@ == status_error("scp pull"@, code, lossy_text(stderr@)),
        },
{
    run_status("scp pull", success, code, stderr)
}

// ---------------------------------------------------------------------------
// Copy
// ---------------------------------------------------------------------------

/// Builder for [`Dispatch::copy`] (push a local path to each host).
pub struct CopyBuilder<'a> {
    pub dispatch: &'a Dispatch,
    pub patterns: Vec<String>,
    pub src: String,
    pub dest: String,
    pub parallel: usize,
    pub recursive: bool,
    pub timeout: Timeout,
}

/// The copy to one host.
#[derive(Debug, Clone)]
pub struct CopyJob {
    pub host: String,
    pub src: String,
    pub dest: String,
    pub recursive: bool,
}

/// What a [`CopyBuilder`] comes to: one copy for each host.
#[derive(Debug, Clone)]
pub struct CopyPlan {
    pub jobs: Vec<CopyJob>,
    /// How long the copy to one host may take.
    pub timeout: Timeout,
    /// How many hosts are copied to at once.
    pub parallel: usize,
}

/// What to do next for a copy.
#[derive(Debug, Clone)]
pub enum CopyStep {
    /// Run this script on the host, then go on with [`CopyJob::after_mkdir`].
    MakeParent(String),
    /// Run `scp` with these arguments; what comes of it is what comes of the copy.
    Push(Vec<String>),
    /// Give up.
    Fail(Error),
}

/// What a [`CopyStep`] holds.
pub enum CopyStepView {
    MakeParent(Seq<char>),
    Push(Seq<Seq<char>>),
    Fail(ErrorView),
}

impl View for CopyStep {
    type V = CopyStepView;

    open spec fn view(&self) -> CopyStepView {
        match *self {
            CopyStep::MakeParent(s) => CopyStepView::MakeParent(s@),
            CopyStep::Push(v) => CopyStepView::Push(views(v@)),
            CopyStep::Fail(e) => CopyStepView::Fail(e@),
        }
    }
}

/// The script that makes the directory `dir` and those above it.
pub open spec fn mkdir_script(dir: Seq<char>) -> Seq<char> {
    "mkdir -p "@ + quoted(dir)
}

/// The first step of a copy: make the directory that the destination lies in, so
/// that the copy does not fail for want of it.
pub open spec fn copy_start(
    host: Seq<char>,
    src: Seq<char>,
    dest: Seq<char>,
    recursive: bool,
) -> CopyStepView {
    match parent_of(dest) {
        Some(dir) => CopyStepView::MakeParent(mkdir_script(dir)),
        None => CopyStepView::Push(push_args_of(host, src, dest, recursive)),
    }
}

/// The step of a copy after the directory was to be made: the push where it was
/// made, and the error where it was not.
pub open spec fn copy_made(
    host: Seq<char>,
    src: Seq<char>,
    dest: Seq<char>,
    recursive: bool,
    made: Result<HostResult, Error>,
) -> CopyStepView {
    match made {
        Ok(hr) => if hr.success {
            CopyStepView::Push(push_args_of(host, src, dest, recursive))
        } else {
            CopyStepView::Fail(ErrorView::Config("mkdir failed: "@ + trimmed(hr.stderr@)))
        },
        Err(e) => CopyStepView::Fail(e@),
    }
}

/// A copy to a path in a directory pushes nothing before that directory was made:
/// its first step makes exactly that directory, and it pushes exactly where this
/// succeeded.
pub proof fn copies_make_the_directory_first(
    host: Seq<char>,
    src: Seq<char>,
    dest: Seq<char>,
    recursive: bool,
    made: Result<HostResult, Error>,
    dir: Seq<char>,
)
    requires
        parent_of(dest) == Some(dir),
    ensures
        copy_start(host, src, dest, recursive) == CopyStepView::MakeParent(mkdir_script(dir)),
        read_word(mkdir_script(dir).skip("mkdir -p "@.len() as int), false) == Some(
            (dir, Seq::<char>::empty()),
        ),
        copy_made(host, src, dest, recursive, made) is Push <==> (made matches Ok(hr)
            && hr.success),
{
    let none = Seq::<char>::empty();
    quoting_is_read_back(dir, none);
    assert(mkdir_script(dir).skip("mkdir -p "@.len() as int) =~= quoted(dir) + none);
}

impl CopyJob {
    /// The first step.
    pub fn start(&self) -> (r: CopyStep)
        ensures
            r@ == copy_start(self.host@, self.src@, self.dest@, self.recursive),
    {
        match remote_parent(self.dest.as_str()) {
            Some(dir) => CopyStep::MakeParent(
                "mkdir -p ".to_owned().concat(shell_quote(dir.as_str()).as_str()),
            ),
            None => self.push(),
        }
    }

    fn push(&self) -> (r: CopyStep)
        ensures
            r@ == CopyStepView::Push(
                push_args_of(self.host@, self.src@, self.dest@, self.recursive),
            ),
    {
        CopyStep::Push(
            push_args(
                self.host.as_str(),
                self.src.as_str(),
                self.dest.as_str(),
                self.recursive,
            ),
        )
    }

    /// The step after the directory was to be made: the push where it was made,
    /// and the error where it was not.
    pub fn after_mkdir(&self, made: Result<HostResult, Error>) -> (r: CopyStep)
        ensures
            r@ == copy_made(self.host@, self.src@, self.dest@, self.recursive, made),
    {
        match made {
            Ok(hr) => if hr.success {
                self.push()
            } else {
                CopyStep::Fail(config_error("mkdir failed: ", trim(hr.stderr.as_str()).as_str()))
            },
            Err(e) => CopyStep::Fail(e),
        }
    }
}

/// What comes of the copy to one host; `None` stands for one that did not finish
/// in time.
pub fn copy_outcome(host: &str, outcome: Option<Result<(), Error>>) -> (r: Result<(), Error>)
    ensures
        held(r) == timely("copy to "@, host@, outcome),
{
    in_time("copy to ", host, outcome)
}

impl<'a> CopyBuilder<'a> {
    pub(crate) fn new(
        dispatch: &'a Dispatch,
        patterns: Vec<String>,
        src: String,
        dest: String,
    ) -> (r: Self)
        ensures
            r == (CopyBuilder {
                dispatch,
                patterns,
                src,
                dest,
                parallel: dispatch.config.parallel,
                recursive: true,
                timeout: dispatch.config.timeout,
            }),
    {
        CopyBuilder {
            parallel: dispatch.config.parallel,
            timeout: dispatch.config.timeout,
            dispatch,
            patterns,
            src,
            dest,
            recursive: true,
        }
    }

    /// Max hosts copied to concurrently.
    pub fn parallel(self, n: usize) -> (r: Self)
        ensures
            r == (CopyBuilder { parallel: at_least_one(n), ..self }),
    {
        CopyBuilder { parallel: one_or_more(n), ..self }
    }

    /// Copy directories recursively (`scp -r`). Default: true.
    pub fn recursive(self, recursive: bool) -> (r: Self)
        ensures
            r == (CopyBuilder { recursive, ..self }),
    {
        CopyBuilder { recursive, ..self }
    }

    /// Resolves the hosts and settles the copy to each of them.
    pub fn plan(&self) -> (r: Result<CopyPlan, Error>)
        ensures
            match resolution(self.dispatch.inventory@, views(self.patterns@)) {
                Ok(hosts) => {
                    &&& r matches Ok(p)
                    &&& p.parallel == self.parallel
                    &&& p.timeout == self.timeout
                    &&& p.jobs@.len() == hosts.len()
                    &&& forall|i: int|
                        0 <= i < hosts.len() ==> {
                            &&& (#[trigger] p.jobs@[i]).host@ == hosts[i]
                            &&& p.jobs@[i].src@ == self.src@
                            &&& p.jobs@[i].dest@ == self.dest@
                            &&& p.jobs@[i].recursive == self.recursive
                        }
                },
                Err(e) => r matches Err(x) && x@ == e,
            },
    {
        let hosts: Vec<String> = match self.dispatch.inventory.resolve(self.patterns.as_slice()) {
            Ok(hosts) => hosts,
            Err(e) => return Err(e),
        };
        let mut jobs: Vec<CopyJob> = Vec::new();
        let mut i: usize = 0;
        while i < hosts.len()
            invariant
                i <= hosts@.len(),
                jobs@.len() == i,
                forall|j: int|
                    0 <= j < i ==> {
                        &&& (#[trigger] jobs@[j]).host@ == hosts@[j]@
                        &&& jobs@[j].src@ == self.src@
                        &&& jobs@[j].dest@ == self.dest@
                        &&& jobs@[j].recursive == self.recursive
                    },
            decreases hosts@.len() - i,
        {
            jobs.push(
                CopyJob {
                    host: hosts[i].clone(),
                    src: self.src.clone(),
                    dest: self.dest.clone(),
                    recursive: self.recursive,
                },
            );
            i = i + 1;
        }
        Ok(CopyPlan { jobs, timeout: self.timeout, parallel: self.parallel })
    }
}

// ---------------------------------------------------------------------------
// Fetch
// ---------------------------------------------------------------------------

/// Builder for [`Dispatch::fetch`] (pull a remote path from each host).
///
/// Each host's file lands under `dest/<host>/` to avoid collisions.
pub struct FetchBuilder<'a> {
    pub dispatch: &'a Dispatch,
    pub patterns: Vec<String>,
    pub src: String,
    pub dest: String,
    pub parallel: usize,
    pub recursive: bool,
    pub timeout: Timeout,
}

/// The fetch from one host.
#[derive(Debug, Clone)]
pub struct FetchJob {
    pub host: String,
    /// The local directory to make and to fetch into.
    pub dest_dir: String,
    /// The arguments for `scp`.
    pub args: Vec<String>,
}

/// What a [`FetchBuilder`] comes to: one fetch for each host.
#[derive(Debug, Clone)]
pub struct FetchPlan {
    pub jobs: Vec<FetchJob>,
    /// How long the fetch from one host may take.
    pub timeout: Timeout,
    /// How many hosts are fetched from at once.
    pub parallel: usize,
}

/// What comes of the fetch from one host; `None` stands for one that did not
/// finish in time.
pub fn fetch_outcome(host: &str, outcome: Option<Result<(), Error>>) -> (r: Result<(), Error>)
    ensures
        held(r) == timely("fetch from "@, host@, outcome),
{
    in_time("fetch from ", host, outcome)
}

impl<'a> FetchBuilder<'a> {
    pub(crate) fn new(
        dispatch: &'a Dispatch,
        patterns: Vec<String>,
        src: String,
        dest: String,
    ) -> (r: Self)
        ensures
            r == (FetchBuilder {
                dispatch,
                patterns,
                src,
                dest,
                parallel: dispatch.config.parallel,
                recursive: true,
                timeout: dispatch.config.timeout,
            }),
    {
        FetchBuilder {
            parallel: dispatch.config.parallel,
            timeout: dispatch.config.timeout,
            dispatch,
            patterns,
            src,
            dest,
            recursive: true,
        }
    }

    /// Max hosts fetched from concurrently.
    pub fn parallel(self, n: usize) -> (r: Self)
        ensures
            r == (FetchBuilder { parallel: at_least_one(n), ..self }),
    {
        FetchBuilder { parallel: one_or_more(n), ..self }
    }

    /// Fetch directories recursively (`scp -r`). Default: true.
    pub fn recursive(self, recursive: bool) -> (r: Self)
        ensures
            r == (FetchBuilder { recursive, ..self }),
    {
        FetchBuilder { recursive, ..self }
    }

    /// Resolves the hosts and settles the fetch from each of them.
    pub fn plan(&self) -> (r: Result<FetchPlan, Error>)
        ensures
            match resolution(self.dispatch.inventory@, views(self.patterns@)) {
                Ok(hosts) => {
                    &&& r matches Ok(p)
                    &&& p.parallel == self.parallel
                    &&& p.timeout == self.timeout
                    &&& p.jobs@.len() == hosts.len()
                    &&& forall|i: int|
                        0 <= i < hosts.len() ==> {
                            &&& (#[trigger] p.jobs@[i]).host@ == hosts[i]
                            &&& p.jobs@[i].dest_dir@ == joined_path(self.dest@, hosts[i])
                            &&& views(p.jobs@[i].args@) == pull_args_of(
                                hosts[i],
                                self.src@,
                                joined_path(self.dest@, hosts[i]),
                                self.recursive,
                            )
                        }
                },
                Err(e) => r matches Err(x) && x@ == e,
            },
    {
        let hosts: Vec<String> = match self.dispatch.inventory.resolve(self.patterns.as_slice()) {
            Ok(hosts) => hosts,
            Err(e) => return Err(e),
        };
        let mut jobs: Vec<FetchJob> = Vec::new();
        let mut i: usize = 0;
        while i < hosts.len()
            invariant
                i <= hosts@.len(),
                jobs@.len() == i,
                forall|j: int|
                    0 <= j < i ==> {
                        &&& (#[trigger] jobs@[j]).host@ == hosts@[j]@
                        &&& jobs@[j].dest_dir@ == joined_path(self.dest@, hosts@[j]@)
                        &&& views(jobs@[j].args@) == pull_args_of(
                            hosts@[j]@,
                            self.src@,
                            joined_path(self.dest@, hosts@[j]@),
                            self.recursive,
                        )
                    },
            decreases hosts@.len() - i,
        {
            let dest_dir: String = join_path(self.dest.as_str(), hosts[i].as_str());
            let args: Vec<String> = pull_args(
                hosts[i].as_str(),
                self.src.as_str(),
                dest_dir.as_str(),
                self.recursive,
            );
            jobs.push(FetchJob { host: hosts[i].clone(), dest_dir, args });
            i = i + 1;
        }
        Ok(FetchPlan { jobs, timeout: self.timeout, parallel: self.parallel })
    }
}

/// Whether `host` is an absolute path, and the very one under which the files of
/// `other` land.
pub open spec fn takes_the_place_of(dest: Seq<char>, host: Seq<char>, other: Seq<char>) -> bool {
    starts_with_slash(host) && !starts_with_slash(other) && host == joined_path(dest, other)
}

/// What is fetched from different hosts lands in different directories, unless
/// one of them is named by an absolute path, and that path is the directory of
/// the other.
pub proof fn fetches_do_not_collide(
    inv: InventoryView,
    pats: Seq<Seq<char>>,
    dest: Seq<char>,
    i: int,
    j: int,
)
    requires
        resolution(inv, pats) matches Ok(hosts) && 0 <= i < hosts.len() && 0 <= j < hosts.len() && i
            != j && !takes_the_place_of(dest, hosts[i], hosts[j]) && !takes_the_place_of(
            dest,
            hosts[j],
            hosts[i],
        ),
    ensures
        resolution(inv, pats) matches Ok(hosts) && joined_path(dest, hosts[i]) != joined_path(
            dest,
            hosts[j],
        ),
{
    resolution_is_the_set_of_hosts(inv, pats);
    let hosts = resolution(inv, pats)->Ok_0;
    if !starts_with_slash(hosts[i]) && !starts_with_slash(hosts[j]) {
        if joined_path(dest, hosts[i]) == joined_path(dest, hosts[j]) {
            joined_paths_do_not_collide(dest, hosts[i], hosts[j]);
        }
    }
}

// ---------------------------------------------------------------------------
// Laws
// ---------------------------------------------------------------------------

/// Whether `options` are those of an `scp` that never asks, and that copies
/// directories exactly where `recursive`.
pub open spec fn are_options(options: Seq<Seq<char>>, recursive: bool) -> bool {
    &&& options.len() == if recursive {
        3int
    } else {
        2
    }
    &&& options[0] == "-o"@
    &&& options[1] == "BatchMode=yes"@
    &&& options.contains("-r"@) <==> recursive
}

/// Whether `args` make an `scp` that pushes `src` to `dest` on `host`.
pub open spec fn is_push(
    args: Seq<Seq<char>>,
    host: Seq<char>,
    src: Seq<char>,
    dest: Seq<char>,
    recursive: bool,
) -> bool {
    &&& args.len() >= 2
    &&& are_options(args.take(args.len() - 2), recursive)
    &&& args[args.len() - 2] == src
    &&& args[args.len() - 1] == host + ":"@ + dest
}

/// Whether `args` make an `scp` that pulls `src` on `host` into `dest`.
pub open spec fn is_pull(
    args: Seq<Seq<char>>,
    host: Seq<char>,
    src: Seq<char>,
    dest: Seq<char>,
    recursive: bool,
) -> bool {
    &&& args.len() >= 2
    &&& are_options(args.take(args.len() - 2), recursive)
    &&& args[args.len() - 2] == host + ":"@ + src
    &&& args[args.len() - 1] == dest
}

/// An `scp` has the options that it should, `-r` among them exactly where it is
/// recursive, and then what is copied and where to.
pub proof fn scp_copies_what_is_asked(
    host: Seq<char>,
    src: Seq<char>,
    dest: Seq<char>,
    recursive: bool,
)
    ensures
        is_push(push_args_of(host, src, dest, recursive), host, src, dest, recursive),
        is_pull(pull_args_of(host, src, dest, recursive), host, src, dest, recursive),
{
    reveal_strlit("-o");
    reveal_strlit("-r");
    reveal_strlit("BatchMode=yes");
    let options = scp_options(recursive);
    assert("-o"@[1] != "-r"@[1]);
    assert("BatchMode=yes"@.len() != "-r"@.len());
    if recursive {
        assert(options[2] == "-r"@);
    }
    let push = push_args_of(host, src, dest, recursive);
    let pull = pull_args_of(host, src, dest, recursive);
    assert(push.take(push.len() - 2) =~= options);
    assert(pull.take(pull.len() - 2) =~= options);
}

/// Every push of a copy, as its first step or after the directory was made, pushes
/// what is asked, recursively exactly where that is asked. It is the first step
/// exactly where the destination lies in no directory.
pub proof fn copies_push_what_is_asked(
    host: Seq<char>,
    src: Seq<char>,
    dest: Seq<char>,
    recursive: bool,
    made: Result<HostResult, Error>,
)
    ensures
        copy_start(host, src, dest, recursive) is Push <==> parent_of(dest) is None,
        copy_start(host, src, dest, recursive) matches CopyStepView::Push(args) ==> is_push(
            args,
            host,
            src,
            dest,
            recursive,
        ),
        copy_made(host, src, dest, recursive, made) matches CopyStepView::Push(args) ==> is_push(
            args,
            host,
            src,
            dest,
            recursive,
        ),
        match made {
            Ok(hr) => if hr.success {
                copy_made(host, src, dest, recursive, made) is Push
            } else {
                copy_made(host, src, dest, recursive, made) == CopyStepView::Fail(
                    ErrorView::Config("mkdir failed: "@ + trimmed(hr.stderr@)),
                )
            },
            Err(e) => copy_made(host, src, dest, recursive, made) == CopyStepView::Fail(e@),
        },
{
    scp_copies_what_is_asked(host, src, dest, recursive);
}

/// The directory is made with those above it, and its name is quoted.
pub proof fn directories_are_made_with_their_parents(dir: Seq<char>)
    ensures
        mkdir_script(dir) == "mkdir -p "@ + quoted(dir),
{
}

/// A step shows exactly what it holds.
pub proof fn copy_steps_show_what_they_hold(step: CopyStep)
    ensures
        match step {
            CopyStep::MakeParent(s) => step@ == CopyStepView::MakeParent(s@),
            CopyStep::Push(v) => {
                &&& step@ matches CopyStepView::Push(args)
                &&& args.len() == v@.len()
                &&& forall|i: int| 0 <= i < v@.len() ==> #[trigger] args[i] == v@[i]@
            },
            CopyStep::Fail(e) => step@ == CopyStepView::Fail(e@),
        },
{
}

/// A program that failed is an error that names the program, its exit code, or -1
/// where it has none, and what it said, without the white space around it.
pub proof fn failed_programs_are_named(what: Seq<char>, code: i32, stderr: Seq<char>)
    ensures
        status_error(what, Some(code), stderr) == ErrorView::Config(
            what + " failed (exit "@ + decimal(code as int) + "): "@ + trimmed(stderr),
        ),
        status_error(what, None, stderr) == ErrorView::Config(
            what + " failed (exit "@ + decimal(-1) + "): "@ + trimmed(stderr),
        ),
{
}

/// The aggregate holds for each host its own destination and whether the transfer
/// succeeded, and the error exactly where it did not.
pub proof fn collected_transfers_are_the_ones_given(
    results: Seq<(String, String, Result<(), Error>)>,
    i: int,
)
    requires
        0 <= i < results.len(),
        forall|j: int| i < j < results.len() ==> (#[trigger] results[j]).0@ != results[i].0@,
    ensures
        ({
            let v = by_host(reports(results))[results[i].0@];
            &&& v.host == results[i].0@
            &&& v.dest == results[i].1@
            &&& match results[i].2 {
                Ok(_) => v.success && v.error is None,
                Err(e) => !v.success && v.error == Some(error_text(e@)),
            }
        }),
        reports(results).len() == results.len(),
        reports(results)[i].0 == results[i].0@,
{
    let all = reports(results);
    assert forall|j: int| i < j < all.len() implies (#[trigger] all[j]).0 != results[i].0@ by {
        assert(results[j].0@ != results[i].0@);
    }
    the_last_outcome_counts(all, results[i].0@, i);
}

/// An outcome shows all that it holds.
pub proof fn transfers_show_what_they_hold(r: TransferHostResult)
    ensures
        r.deep_view().host == r.host@,
        r.deep_view().success == r.success,
        r.deep_view().dest == r.dest@,
        match r.error {
            Some(e) => r.deep_view().error == Some(e@),
            None => r.deep_view().error is None,
        },
{
}

/// A transfer succeeded exactly for the hosts whose outcome says so, and the failed
/// hosts are those that the other outcomes name.
pub proof fn transfers_fail_as_their_outcomes_say(
    entries: Seq<(Seq<char>, TransferView)>,
    h: Seq<char>,
)
    ensures
        all_succeeded::<TransferHostResult>(entries) <==> forall|i: int|
            0 <= i < entries.len() ==> (#[trigger] entries[i]).1.success,
        failures::<TransferHostResult>(entries).contains(h) <==> exists|i: int|
            0 <= i < entries.len() && !(#[trigger] entries[i]).1.success && entries[i].1.host == h,
{
    failures_are_the_hosts_that_failed::<TransferHostResult>(entries, h);
    assert forall|v: TransferView| #[trigger] TransferHostResult::succeeded(v) == v.success by {}
    assert forall|v: TransferView| #[trigger] TransferHostResult::about(v) == v.host by {}
    if all_succeeded::<TransferHostResult>(entries) {
        assert forall|i: int| 0 <= i < entries.len() implies (#[trigger] entries[i]).1.success by {
            assert(TransferHostResult::succeeded(entries[i].1));
        }
    }
}

} // verus!
