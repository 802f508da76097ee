//! Update: like copy, but skips hosts whose file already matches (sha256), with
//! an optional backup of the existing remote file and an optional file mode.

use crate::client::Dispatch;
use crate::codec::{sha256, sha256_digest};
use crate::config::Timeout;
use crate::error::{config_error, error_text, Error, ErrorView};
use crate::exec::{at_least_one, one_or_more, optional, HostResult, Silent};
use crate::inventory::{resolution, InventoryView};
use crate::number::{
    hex, hex_text, numerals_have_no_leading_zeros, octal, value_in, written,
    written_numbers_are_read_back,
};
use crate::ordered::{ascending, entries_are_the_map, map_of, OrderedMap};
use crate::outcome::{
    all_succeeded, by_host, every_host_is_reported, every_success, failed,
    failed_hosts_are_in_order, failures, failures_are_the_hosts_that_failed, held,
    hosts_are_listed_one_by_one, hosts_where, hosts_where_are_in_order, hosts_where_are_those,
    in_time, is_last_for, is_tried, names_ascend, own_names, reported_hosts_are_those_tried,
    the_last_outcome_counts, timely, Outcome,
};
use crate::shell::{
    quoted, quoting_begins_a_word, quoting_is_read_back, read_word, shell_quote,
};
use crate::text::{same, trim, trimmed, views};
use crate::transfer::{is_push, push_args, push_args_of, scp_copies_what_is_asked};
use vstd::prelude::*;

verus! {

/// Phases reported by [`UpdateBuilder::progress`].
#[derive(Debug, Clone, Copy, PartialEq, Eq, Structural)]
pub enum UpdatePhase {
    /// Comparing the local and remote checksums.
    Checking,
    /// Remote file already matched; nothing to do.
    Skipped,
    /// Backing up the existing remote file.
    BackingUp,
    /// Transferring the new file.
    Copying,
    /// Finished for this host.
    Done,
}

// ---------------------------------------------------------------------------
// Results
// ---------------------------------------------------------------------------

/// Per-host update outcome.
#[derive(Debug, Clone)]
pub struct UpdateHostResult {
    pub host: String,
    pub success: bool,
    /// Remote file already matched; nothing was transferred.
    pub skipped: bool,
    /// Bytes written (0 when skipped).
    pub bytes_copied: u64,
    pub error: Option<String>,
}

/// What an [`UpdateHostResult`] holds.
#[verifier::ext_equal]
pub struct UpdateView {
    pub host: Seq<char>,
    pub success: bool,
    pub skipped: bool,
    pub bytes_copied: int,
    pub error: Option<Seq<char>>,
}

impl DeepView for UpdateHostResult {
    type V = UpdateView;

    open spec fn deep_view(&self) -> UpdateView {
        UpdateView {
            host: self.host@,
            success: self.success,
            skipped: self.skipped,
            bytes_copied: self.bytes_copied as int,
            error: optional(self.error),
        }
    }
}

impl Outcome for UpdateHostResult {
    open spec fn succeeded(v: UpdateView) -> bool {
        v.success
    }

    open spec fn about(v: UpdateView) -> Seq<char> {
        v.host
    }

    fn ok(&self) -> bool {
        self.success
    }

    fn host_name(&self) -> &String {
        &self.host
    }
}

/// Aggregate update result keyed by host.
#[derive(Debug, Clone)]
pub struct UpdateResult {
    pub hosts: OrderedMap<UpdateHostResult>,
}

/// The hosts that were skipped, in the order of the entries.
pub open spec fn skips(entries: Seq<(Seq<char>, UpdateView)>) -> Seq<Seq<char>> {
    hosts_where::<UpdateHostResult>(entries, |v: UpdateView| v.skipped)
}

/// The outcome to report for `host`: the one that came of the update, or the error.
pub open spec fn reported(host: Seq<char>, r: Result<UpdateHostResult, Error>) -> UpdateView {
    match r {
        Ok(hr) => hr.deep_view(),
        Err(e) => UpdateView {
            host,
            success: false,
            skipped: false,
            bytes_copied: 0,
            error: Some(error_text(e@)),
        },
    }
}

/// What is reported for each of `results`.
pub open spec fn reports(results: Seq<(String, Result<UpdateHostResult, Error>)>) -> Seq<
    (Seq<char>, UpdateView),
> {
    results.map_values(|r: (String, Result<UpdateHostResult, Error>)| (r.0@, reported(r.0@, r.1)))
}

impl UpdateResult {
    /// Whether the update succeeded on every host.
    pub fn all_success(&self) -> (r: bool)
        ensures
            r == all_succeeded::<UpdateHostResult>(self.hosts.entries()),
    {
        every_success(&self.hosts)
    }

    /// The hosts on which it did not.
    pub fn failed_hosts(&self) -> (r: Vec<String>)
        ensures
            views(r@) == failures::<UpdateHostResult>(self.hosts.entries()),
    {
        failed(&self.hosts)
    }

    /// Hosts that were already up to date.
    pub fn skipped_hosts(&self) -> (r: Vec<String>)
        ensures
            views(r@) == skips(self.hosts.entries()),
    {
        let n: usize = self.hosts.len();
        let ghost entries = self.hosts.entries();
        let mut r: Vec<String> = Vec::new();
        let mut i: usize = 0;
        assert(views(r@) =~= skips(entries.take(0)));
        while i < n
            invariant
                i <= n,
                entries == self.hosts.entries(),
                n == entries.len(),
                views(r@) == skips(entries.take(i as int)),
            decreases n - i,
        {
            let v: &UpdateHostResult = self.hosts.value(i);
            let ghost before = views(r@);
            if v.skipped {
                r.push(v.host.clone());
                assert(views(r@) =~= before.push(v.host@));
            }
            proof {
                assert(entries.take(i + 1).drop_last() =~= entries.take(i as int));
                assert(entries.take(i + 1).last() == entries[i as int]);
            }
            i = i + 1;
        }
        assert(entries.take(n as int) =~= entries);
        r
    }

    /// The aggregate of the outcomes of all hosts.
    pub fn collect(results: Vec<(String, Result<UpdateHostResult, Error>)>) -> (r: Self)
        ensures
            r.hosts.deep_view() == by_host(reports(results@)),
            ascending(r.hosts.entries()),
    {
        let mut hosts: OrderedMap<UpdateHostResult> = OrderedMap::new();
        let ghost all = results@;
        let ghost mut n: int = 0;
        assert(all.take(0) =~= Seq::empty());
        for (host, res) in it: results
            invariant
                it.seq() == all,
                n == it.index(),
                hosts.deep_view() == by_host(reports(all.take(n))),
                ascending(hosts.entries()),
        {
            let hr: UpdateHostResult = match res {
                Ok(hr) => hr,
                Err(e) => UpdateHostResult {
                    host: host.clone(),
                    success: false,
                    skipped: false,
                    bytes_copied: 0,
                    error: Some(e.message()),
                },
            };
            hosts.insert(host, hr);
            proof {
                assert(reports(all.take(n + 1)).drop_last() =~= reports(all.take(n)));
                assert(all.take(n + 1).last() == (host, res));
                n = n + 1;
            }
        }
        assert(all.take(all.len() as int) =~= all);
        UpdateResult { hosts }
    }
}

// ---------------------------------------------------------------------------
// One host
// ---------------------------------------------------------------------------

/// The update of one host.
#[derive(Debug, Clone)]
pub struct UpdateJob {
    pub host: String,
    pub src: String,
    pub dest: String,
    /// The checksum of the local file, in hexadecimal.
    pub local_sum: String,
    /// The size of the local file.
    pub size: u64,
    /// Whether to back up the existing remote file to `<dest>.bak`.
    pub backup: bool,
    /// The mode to give the file.
    pub mode: Option<u32>,
}

/// What an [`UpdateJob`] holds.
pub struct JobView {
    pub host: Seq<char>,
    pub src: Seq<char>,
    pub dest: Seq<char>,
    pub local_sum: Seq<char>,
    pub size: int,
    pub backup: bool,
    pub mode: Option<u32>,
}

impl View for UpdateJob {
    type V = JobView;

    open spec fn view(&self) -> JobView {
        JobView {
            host: self.host@,
            src: self.src@,
            dest: self.dest@,
            local_sum: self.local_sum@,
            size: self.size as int,
            backup: self.backup,
            mode: self.mode,
        }
    }
}

/// What to do next for an update.
#[derive(Debug)]
pub enum UpdateStep {
    /// Run this script on the host, then go on with [`UpdateJob::after_check`].
    Check(String),
    /// Run this script on the host, then go on with [`UpdateJob::after_backup`].
    Backup(String),
    /// Run `scp` with these arguments, then go on with [`UpdateJob::after_push`].
    Push(Vec<String>),
    /// Run this script on the host, then go on with [`UpdateJob::after_chmod`].
    Chmod(String),
    /// The update is over.
    Finish(Result<UpdateHostResult, Error>),
}

/// What an [`UpdateStep`] holds.
pub enum StepView {
    Check(Seq<char>),
    Backup(Seq<char>),
    Push(Seq<Seq<char>>),
    Chmod(Seq<char>),
    Finish(Result<UpdateView, ErrorView>),
}

impl View for UpdateStep {
    type V = StepView;

    open spec fn view(&self) -> StepView {
        match *self {
            UpdateStep::Check(s) => StepView::Check(s@),
            UpdateStep::Backup(s) => StepView::Backup(s@),
            UpdateStep::Push(v) => StepView::Push(views(v@)),
            UpdateStep::Chmod(s) => StepView::Chmod(s@),
            UpdateStep::Finish(Ok(hr)) => StepView::Finish(Ok(hr.deep_view())),
            UpdateStep::Finish(Err(e)) => StepView::Finish(Err(e@)),
        }
    }
}

/// One move of an update: the phases to report, in order, and the next step.
#[derive(Debug)]
pub struct UpdateMove {
    pub phases: Vec<UpdatePhase>,
    pub step: UpdateStep,
}

/// What an [`UpdateMove`] holds.
#[verifier::ext_equal]
pub struct MoveView {
    pub phases: Seq<UpdatePhase>,
    pub step: StepView,
}

impl View for UpdateMove {
    type V = MoveView;

    open spec fn view(&self) -> MoveView {
        MoveView { phases: self.phases@, step: self.step@ }
    }
}

/// The script that prints the checksum of the remote file, or -1 where there is none.
pub open spec fn check_script(dest: Seq<char>) -> Seq<char> {
    "if [ -f "@ + quoted(dest) + " ]; then sha256sum "@ + quoted(dest)
        + " 2>/dev/null | cut -d' ' -f1; else echo -1; fi"@
}

/// The script that copies an existing remote file to `<dest>.bak`.
pub open spec fn backup_script(dest: Seq<char>) -> Seq<char> {
    "if [ -f "@ + quoted(dest) + " ]; then cp "@ + quoted(dest) + " "@ + quoted(dest)
        + ".bak; fi"@
}

/// The script that gives the remote file its mode, in octal.
pub open spec fn chmod_script(mode: u32, dest: Seq<char>) -> Seq<char> {
    "chmod "@ + written(mode as nat, 8) + " "@ + quoted(dest)
}

/// The first move: compare the checksums.
pub open spec fn update_start(job: JobView) -> MoveView {
    MoveView { phases: seq![UpdatePhase::Checking], step: StepView::Check(check_script(job.dest)) }
}

/// The outcome of an update that succeeded.
pub open spec fn updated(job: JobView, skipped: bool) -> UpdateView {
    UpdateView {
        host: job.host,
        success: true,
        skipped,
        bytes_copied: if skipped {
            0
        } else {
            job.size
        },
        error: None,
    }
}

/// The move that pushes the file.
pub open spec fn push_move(job: JobView) -> MoveView {
    MoveView {
        phases: seq![UpdatePhase::Copying],
        step: StepView::Push(push_args_of(job.host, job.src, job.dest, true)),
    }
}

/// The move that ends an update with success.
pub open spec fn done_move(job: JobView) -> MoveView {
    MoveView { phases: seq![UpdatePhase::Done], step: StepView::Finish(Ok(updated(job, false))) }
}

/// The move that ends an update with an error.
pub open spec fn error_move(e: ErrorView) -> MoveView {
    MoveView { phases: seq![], step: StepView::Finish(Err(e)) }
}

/// The move after the check. A file with the local checksum is left alone; every
/// other one is backed up, where that is asked for, and overwritten.
pub open spec fn check_move(job: JobView, reply: Result<HostResult, Error>) -> MoveView {
    match reply {
        Err(e) => error_move(e@),
        Ok(hr) => if trimmed(hr.stdout@) == job.local_sum {
            MoveView {
                phases: seq![UpdatePhase::Skipped, UpdatePhase::Done],
                step: StepView::Finish(Ok(updated(job, true))),
            }
        } else if job.backup {
            MoveView {
                phases: seq![UpdatePhase::BackingUp],
                step: StepView::Backup(backup_script(job.dest)),
            }
        } else {
            push_move(job)
        },
    }
}

/// The move after the backup: the push, where the backup succeeded.
pub open spec fn backup_move(job: JobView, reply: Result<HostResult, Error>) -> MoveView {
    match reply {
        Err(e) => error_move(e@),
        Ok(hr) => if hr.success {
            push_move(job)
        } else {
            error_move(ErrorView::Config("backup failed: "@ + trimmed(hr.stderr@)))
        },
    }
}

/// The move after the push: the mode, where one is given and the push succeeded.
pub open spec fn pushed_move(job: JobView, reply: Result<(), Error>) -> MoveView {
    match reply {
        Err(e) => error_move(e@),
        Ok(_) => match job.mode {
            Some(m) => MoveView {
                phases: seq![],
                step: StepView::Chmod(chmod_script(m, job.dest)),
            },
            None => done_move(job),
        },
    }
}

/// The move after the mode was to be set.
pub open spec fn chmod_move(job: JobView, reply: Result<HostResult, Error>) -> MoveView {
    match reply {
        Err(e) => error_move(e@),
        Ok(hr) => if hr.success {
            done_move(job)
        } else {
            error_move(ErrorView::Config("chmod failed: "@ + trimmed(hr.stderr@)))
        },
    }
}

fn error_step(e: Error) -> (r: UpdateMove)
    ensures
        r@ == error_move(e@),
{
    let r = UpdateMove { phases: Vec::new(), step: UpdateStep::Finish(Err(e)) };
    assert(r@.phases =~= seq![]);
    r
}

impl UpdateJob {
    fn result(&self, skipped: bool) -> (r: UpdateHostResult)
        ensures
            r.deep_view() == updated(self@, skipped),
    {
        UpdateHostResult {
            host: self.host.clone(),
            success: true,
            skipped,
            bytes_copied: if skipped {
                0
            } else {
                self.size
            },
            error: None,
        }
    }

    fn push(&self) -> (r: UpdateMove)
        ensures
            r@ == push_move(self@),
    {
        let args: Vec<String> = push_args(
            self.host.as_str(),
            self.src.as_str(),
            self.dest.as_str(),
            true,
        );
        let r = UpdateMove { phases: vec![UpdatePhase::Copying], step: UpdateStep::Push(args) };
        assert(r@.phases =~= seq![UpdatePhase::Copying]);
        r
    }

    fn done(&self) -> (r: UpdateMove)
        ensures
            r@ == done_move(self@),
    {
        let r = UpdateMove {
            phases: vec![UpdatePhase::Done],
            step: UpdateStep::Finish(Ok(self.result(false))),
        };
        assert(r@.phases =~= seq![UpdatePhase::Done]);
        r
    }

    /// The first move.
    pub fn start(&self) -> (r: UpdateMove)
        ensures
            r@ == update_start(self@),
    {
        let q: String = shell_quote(self.dest.as_str());
        let script: String = "if [ -f ".to_owned().concat(q.as_str()).concat(
            " ]; then sha256sum ",
        ).concat(q.as_str()).concat(" 2>/dev/null | cut -d' ' -f1; else echo -1; fi");
        let r = UpdateMove {
            phases: vec![UpdatePhase::Checking],
            step: UpdateStep::Check(script),
        };
        assert(r@.phases =~= seq![UpdatePhase::Checking]);
        r
    }

    /// The move after the check.
    pub fn after_check(&self, reply: Result<HostResult, Error>) -> (r: UpdateMove)
        ensures
            r@ == check_move(self@, reply),
    {
        let remote: HostResult = match reply {
            Ok(hr) => hr,
            Err(e) => return error_step(e),
        };
        if same(trim(remote.stdout.as_str()).as_str(), self.local_sum.as_str()) {
            let r = UpdateMove {
                phases: vec![UpdatePhase::Skipped, UpdatePhase::Done],
                step: UpdateStep::Finish(Ok(self.result(true))),
            };
            assert(r@.phases =~= seq![UpdatePhase::Skipped, UpdatePhase::Done]);
            return r;
        }
        if self.backup {
            let q: String = shell_quote(self.dest.as_str());
            let script: String = "if [ -f ".to_owned().concat(q.as_str()).concat(
                " ]; then cp ",
            ).concat(q.as_str()).concat(" ").concat(q.as_str()).concat(".bak; fi");
            let r = UpdateMove {
                phases: vec![UpdatePhase::BackingUp],
                step: UpdateStep::Backup(script),
            };
            assert(r@.phases =~= seq![UpdatePhase::BackingUp]);
            return r;
        }
        self.push()
    }

    /// The move after the backup.
    pub fn after_backup(&self, reply: Result<HostResult, Error>) -> (r: UpdateMove)
        ensures
            r@ == backup_move(self@, reply),
    {
        let hr: HostResult = match reply {
            Ok(hr) => hr,
            Err(e) => return error_step(e),
        };
        if !hr.success {
            return error_step(
                config_error("backup failed: ", trim(hr.stderr.as_str()).as_str()),
            );
        }
        self.push()
    }

    /// The move after the push.
    pub fn after_push(&self, reply: Result<(), Error>) -> (r: UpdateMove)
        ensures
            r@ == pushed_move(self@, reply),
    {
        if let Err(e) = reply {
            return error_step(e);
        }
        match self.mode {
            Some(m) => {
                let script: String = "chmod ".to_owned().concat(octal(m).as_str()).concat(
                    " ",
                ).concat(shell_quote(self.dest.as_str()).as_str());
                let r = UpdateMove { phases: Vec::new(), step: UpdateStep::Chmod(script) };
                assert(r@.phases =~= seq![]);
                r
            },
            None => self.done(),
        }
    }

    /// The move after the mode was to be set.
    pub fn after_chmod(&self, reply: Result<HostResult, Error>) -> (r: UpdateMove)
        ensures
            r@ == chmod_move(self@, reply),
    {
        let hr: HostResult = match reply {
            Ok(hr) => hr,
            Err(e) => return error_step(e),
        };
        if !hr.success {
            return error_step(config_error("chmod failed: ", trim(hr.stderr.as_str()).as_str()));
        }
        self.done()
    }
}

/// What comes of connecting to `host`; `None` stands for a connection that was not
/// there in time.
pub fn connect_outcome<T>(host: &str, outcome: Option<Result<T, Error>>) -> (r: Result<T, Error>)
    ensures
        held(r) == timely("connect to "@, host@, outcome),
{
    in_time("connect to ", host, outcome)
}

/// What comes of the update of one host that was connected to; `None` stands for
/// one that did not finish in time.
pub fn update_outcome(host: &str, outcome: Option<Result<UpdateHostResult, Error>>) -> (r: Result<
    UpdateHostResult,
    Error,
>)
    ensures
        held(r) == timely("update of "@, host@, outcome),
{
    in_time("update of ", host, outcome)
}

// ---------------------------------------------------------------------------
// The builder
// ---------------------------------------------------------------------------

/// Builder for [`Dispatch::update`]. `P` is the callback that phases are reported
/// to.
pub struct UpdateBuilder<'a, P> {
    pub dispatch: &'a Dispatch,
    pub patterns: Vec<String>,
    pub src: String,
    pub dest: String,
    pub parallel: usize,
    pub backup: bool,
    pub mode: Option<u32>,
    pub timeout: Timeout,
    pub progress: Option<P>,
}

/// What an [`UpdateBuilder`] comes to: one update for each host.
#[derive(Debug, Clone)]
pub struct UpdatePlan {
    pub jobs: Vec<UpdateJob>,
    /// How long the update of one host may take, the connection to it included.
    pub timeout: Timeout,
    /// How many hosts are updated at once.
    pub parallel: usize,
}

impl<'a> UpdateBuilder<'a, Silent> {
    pub(crate) fn new(
        dispatch: &'a Dispatch,
        patterns: Vec<String>,
        src: String,
        dest: String,
    ) -> (r: Self)
        ensures
            r == (UpdateBuilder::<'a, Silent> {
                dispatch,
                patterns,
                src,
                dest,
                parallel: dispatch.config.parallel,
                backup: false,
                mode: None,
                timeout: dispatch.config.timeout,
                progress: None,
            }),
    {
        UpdateBuilder {
            parallel: dispatch.config.parallel,
            timeout: dispatch.config.timeout,
            dispatch,
            patterns,
            src,
            dest,
            backup: false,
            mode: None,
            progress: None,
        }
    }
}

impl<'a, P> UpdateBuilder<'a, P> {
    /// Observe each host's progress through the update phases.
    pub fn progress<F>(self, cb: F) -> (r: UpdateBuilder<'a, F>) where
        F: Fn(&str, UpdatePhase) + Send + Sync + 'static,

        ensures
            r == (UpdateBuilder::<'a, F> {
                dispatch: self.dispatch,
                patterns: self.patterns,
                src: self.src,
                dest: self.dest,
                parallel: self.parallel,
                backup: self.backup,
                mode: self.mode,
                timeout: self.timeout,
                progress: Some(cb),
            }),
    {
        UpdateBuilder {
            dispatch: self.dispatch,
            patterns: self.patterns,
            src: self.src,
            dest: self.dest,
            parallel: self.parallel,
            backup: self.backup,
            mode: self.mode,
            timeout: self.timeout,
            progress: Some(cb),
        }
    }

    /// Max hosts updated concurrently.
    pub fn parallel(self, n: usize) -> (r: Self)
        ensures
            r == (UpdateBuilder { parallel: at_least_one(n), ..self }),
    {
        UpdateBuilder { parallel: one_or_more(n), ..self }
    }

    /// Back up the existing remote file to `<dest>.bak` before overwriting.
    pub fn backup(self, backup: bool) -> (r: Self)
        ensures
            r == (UpdateBuilder { backup, ..self }),
    {
        UpdateBuilder { backup, ..self }
    }

    /// `chmod` the file to this (octal) mode after writing, e.g. `0o644`.
    pub fn mode(self, mode: u32) -> (r: Self)
        ensures
            r == (UpdateBuilder { mode: Some(mode), ..self }),
    {
        UpdateBuilder { mode: Some(mode), ..self }
    }

    /// The hosts to update.
    pub fn targets(&self) -> (r: Result<Vec<String>, Error>)
        ensures
            match resolution(self.dispatch.inventory@, views(self.patterns@)) {
                Ok(hosts) => r matches Ok(v) && views(v@) == hosts,
                Err(e) => r matches Err(x) && x@ == e,
            },
    {
        self.dispatch.inventory.resolve(self.patterns.as_slice())
    }

    /// The job for `host`, with a local file of `size` bytes and the given checksum.
    fn job(&self, host: &str, local_sum: &str, size: u64) -> (r: UpdateJob)
        ensures
            r@ == (JobView {
                host: host@,
                src: self.src@,
                dest: self.dest@,
                local_sum: local_sum@,
                size: size as int,
                backup: self.backup,
                mode: self.mode,
            }),
    {
        UpdateJob {
            host: host.to_owned(),
            src: self.src.clone(),
            dest: self.dest.clone(),
            local_sum: local_sum.to_owned(),
            size,
            backup: self.backup,
            mode: self.mode,
        }
    }

    /// Settles the update of each of `hosts`, given the checksum of the local file
    /// in hexadecimal and its size.
    pub fn plan_with(&self, hosts: &Vec<String>, local_sum: &str, size: u64) -> (r: UpdatePlan)
        ensures
            r.timeout == self.timeout,
            r.parallel == self.parallel,
            r.jobs@.len() == hosts@.len(),
            forall|i: int|
                0 <= i < hosts@.len() ==> (#[trigger] r.jobs@[i])@ == (JobView {
                    host: hosts@[i]@,
                    src: self.src@,
                    dest: self.dest@,
                    local_sum: local_sum@,
                    size: size as int,
                    backup: self.backup,
                    mode: self.mode,
                }),
    {
        let mut jobs: Vec<UpdateJob> = Vec::new();
        let mut i: usize = 0;
        while i < hosts.len()
            invariant
                i <= hosts@.len(),
                jobs@.len() == i,
                forall|j: int|
                    0 <= j < i ==> (#[trigger] jobs@[j])@ == (JobView {
                        host: hosts@[j]@,
                        src: self.src@,
                        dest: self.dest@,
                        local_sum: local_sum@,
                        size: size as int,
                        backup: self.backup,
                        mode: self.mode,
                    }),
            decreases hosts@.len() - i,
        {
            jobs.push(self.job(hosts[i].as_str(), local_sum, size));
            i = i + 1;
        }
        UpdatePlan { jobs, timeout: self.timeout, parallel: self.parallel }
    }

    /// Settles the update of each of `hosts`, given the contents of the local file.
    pub fn plan(&self, hosts: &Vec<String>, content: &[u8]) -> (r: UpdatePlan)
        ensures
            r.timeout == self.timeout,
            r.parallel == self.parallel,
            r.jobs@.len() == hosts@.len(),
            forall|i: int|
                0 <= i < hosts@.len() ==> (#[trigger] r.jobs@[i])@ == (JobView {
                    host: hosts@[i]@,
                    src: self.src@,
                    dest: self.dest@,
                    local_sum: hex(sha256(content@)),
                    size: content@.len() as int,
                    backup: self.backup,
                    mode: self.mode,
                }),
            hex(sha256(content@)).len() == 64,
    {
        let digest: Vec<u8> = sha256_digest(content);
        let local_sum: String = hex_text(digest.as_slice());
        proof {
            lemma_hex_length(digest@);
        }
        self.plan_with(hosts, local_sum.as_str(), content.len() as u64)
    }
}

proof fn lemma_hex_length(bytes: Seq<u8>)
    ensures
        hex(bytes).len() == 2 * bytes.len(),
        forall|i: int| 0 <= i < hex(bytes).len() ==> #[trigger] hex(bytes)[i] != '-',
    decreases bytes.len(),
{
    if bytes.len() > 0 {
        lemma_hex_length(bytes.drop_last());
    }
}

// ---------------------------------------------------------------------------
// Laws
// ---------------------------------------------------------------------------

/// What comes of each thing that an update may ask for.
pub struct Replies {
    pub check: Result<HostResult, Error>,
    pub backup: Result<HostResult, Error>,
    pub push: Result<(), Error>,
    pub chmod: Result<HostResult, Error>,
}

/// An update from its first move to its end.
#[verifier::ext_equal]
pub struct UpdateRun {
    /// The phases that were reported.
    pub phases: Seq<UpdatePhase>,
    /// What was done.
    pub steps: Seq<StepView>,
    /// What came of it.
    pub result: Result<UpdateView, ErrorView>,
}

/// How many more things may be done from `step` on.
pub open spec fn steps_left(step: StepView) -> nat {
    match step {
        StepView::Check(_) => 4,
        StepView::Backup(_) => 3,
        StepView::Push(_) => 2,
        StepView::Chmod(_) => 1,
        StepView::Finish(_) => 0,
    }
}

/// The move that follows on `step`.
pub open spec fn next_move(job: JobView, step: StepView, replies: Replies) -> MoveView {
    match step {
        StepView::Check(_) => check_move(job, replies.check),
        StepView::Backup(_) => backup_move(job, replies.backup),
        StepView::Push(_) => pushed_move(job, replies.push),
        StepView::Chmod(_) => chmod_move(job, replies.chmod),
        StepView::Finish(r) => MoveView { phases: seq![], step: StepView::Finish(r) },
    }
}

/// The rest of an update, from the move `m` on.
pub open spec fn follow(job: JobView, m: MoveView, replies: Replies) -> UpdateRun
    decreases steps_left(m.step),
{
    match m.step {
        StepView::Finish(result) => UpdateRun { phases: m.phases, steps: seq![], result },
        _ => {
            let rest = follow(job, next_move(job, m.step, replies), replies);
            UpdateRun {
                phases: m.phases + rest.phases,
                steps: seq![m.step] + rest.steps,
                result: rest.result,
            }
        },
    }
}

/// The whole update.
pub open spec fn update_run(job: JobView, replies: Replies) -> UpdateRun {
    follow(job, update_start(job), replies)
}

/// Whether the check finds the remote file up to date.
pub open spec fn up_to_date(job: JobView, replies: Replies) -> bool {
    replies.check matches Ok(hr) && trimmed(hr.stdout@) == job.local_sum
}

/// A host whose file has the local checksum is skipped: nothing but the check is
/// done there, and the outcome says so.
pub proof fn matching_files_are_skipped(job: JobView, replies: Replies)
    requires
        up_to_date(job, replies),
    ensures
        update_run(job, replies) == (UpdateRun {
            phases: seq![UpdatePhase::Checking, UpdatePhase::Skipped, UpdatePhase::Done],
            steps: seq![StepView::Check(check_script(job.dest))],
            result: Ok(updated(job, true)),
        }),
{
    reveal_with_fuel(follow, 2);
    let run = update_run(job, replies);
    assert(run.phases =~= seq![
        UpdatePhase::Checking,
        UpdatePhase::Skipped,
        UpdatePhase::Done,
    ]);
    assert(run.steps =~= seq![StepView::Check(check_script(job.dest))]);
}

/// The phases of an update that writes the file.
pub open spec fn writing_phases(job: JobView) -> Seq<UpdatePhase> {
    if job.backup {
        seq![
            UpdatePhase::Checking,
            UpdatePhase::BackingUp,
            UpdatePhase::Copying,
            UpdatePhase::Done,
        ]
    } else {
        seq![UpdatePhase::Checking, UpdatePhase::Copying, UpdatePhase::Done]
    }
}

/// What is done in an update that writes the file.
pub open spec fn writing_steps(job: JobView) -> Seq<StepView> {
    seq![StepView::Check(check_script(job.dest))] + (if job.backup {
        seq![StepView::Backup(backup_script(job.dest))]
    } else {
        seq![]
    }) + seq![StepView::Push(push_args_of(job.host, job.src, job.dest, true))] + (match job.mode {
        Some(m) => seq![StepView::Chmod(chmod_script(m, job.dest))],
        None => seq![],
    })
}

/// Whether everything that is asked of the host succeeds.
pub open spec fn all_well(job: JobView, replies: Replies) -> bool {
    &&& replies.check is Ok
    &&& job.backup ==> (replies.backup matches Ok(hr) && hr.success)
    &&& replies.push is Ok
    &&& job.mode is Some ==> (replies.chmod matches Ok(hr) && hr.success)
}

/// A host whose file differs, or that has none, gets the file: it is checked,
/// backed up where that is asked for, written, and given its mode, in this order,
/// and the outcome counts the bytes of the file.
pub proof fn other_files_are_written(job: JobView, replies: Replies)
    requires
        !up_to_date(job, replies),
        all_well(job, replies),
    ensures
        update_run(job, replies) == (UpdateRun {
            phases: writing_phases(job),
            steps: writing_steps(job),
            result: Ok(updated(job, false)),
        }),
{
    reveal_with_fuel(follow, 5);
    let run = update_run(job, replies);
    assert(run.phases =~= writing_phases(job));
    assert(run.steps =~= writing_steps(job));
}

/// An update succeeds exactly where the file is up to date or all goes well.
pub proof fn updates_succeed_or_report(job: JobView, replies: Replies)
    ensures
        update_run(job, replies).result is Ok <==> up_to_date(job, replies) || all_well(
            job,
            replies,
        ),
{
    reveal_with_fuel(follow, 5);
}

/// Every update begins by checking, and says that it is done exactly where it
/// succeeded.
pub proof fn phases_begin_and_end(job: JobView, replies: Replies)
    ensures
        update_run(job, replies).phases.len() > 0,
        update_run(job, replies).phases[0] == UpdatePhase::Checking,
        update_run(job, replies).result is Ok <==> update_run(job, replies).phases.last()
            == UpdatePhase::Done,
{
    reveal_with_fuel(follow, 5);
}

/// Where a backup is asked for, the file is overwritten only after the backup
/// succeeded.
pub proof fn backups_come_before_writes(job: JobView, replies: Replies, i: int)
    requires
        job.backup,
        0 <= i < update_run(job, replies).steps.len(),
        update_run(job, replies).steps[i] is Push,
    ensures
        i == 2,
        update_run(job, replies).steps[1] == StepView::Backup(backup_script(job.dest)),
        replies.backup matches Ok(hr) && hr.success,
{
    reveal_with_fuel(follow, 5);
}

/// A remote file that does not exist is never taken for one that is up to date:
/// the check prints -1 for it, and no checksum reads so.
pub proof fn missing_files_are_written(job: JobView, replies: Replies, digest: Seq<u8>)
    requires
        job.local_sum == hex(digest),
        replies.check matches Ok(hr) && trimmed(hr.stdout@) == "-1"@,
    ensures
        !up_to_date(job, replies),
{
    reveal_strlit("-1");
    lemma_hex_length(digest);
    if "-1"@ == hex(digest) {
        assert(hex(digest)[0] == '-');
    }
}

/// The skipped hosts come in ascending order, and are exactly the hosts whose
/// outcome says so.
pub proof fn skipped_hosts_are_in_order(entries: Seq<(Seq<char>, UpdateView)>)
    requires
        ascending(entries),
        own_names::<UpdateHostResult>(entries),
    ensures
        names_ascend(skips(entries)),
        forall|h: Seq<char>| #[trigger]
            skips(entries).contains(h) <==> map_of(entries).dom().contains(h) && map_of(
                entries,
            )[h].skipped,
{
    hosts_where_are_in_order::<UpdateHostResult>(entries, |v: UpdateView| v.skipped);
}

/// Whether an outcome is one that an update of `host` can have: it is about that
/// host, it has an error exactly where it is no success, and where it was skipped
/// it is a success that copied nothing.
pub open spec fn is_outcome_of(v: UpdateView, host: Seq<char>) -> bool {
    &&& v.host == host
    &&& v.success <==> v.error is None
    &&& v.skipped ==> v.success && v.bytes_copied == 0
    &&& !v.success ==> v.bytes_copied == 0
}

/// No host is both failed and skipped.
pub proof fn failed_and_skipped_hosts_are_disjoint(
    entries: Seq<(Seq<char>, UpdateView)>,
    h: Seq<char>,
)
    requires
        ascending(entries),
        forall|i: int|
            0 <= i < entries.len() ==> is_outcome_of((#[trigger] entries[i]).1, entries[i].0),
    ensures
        !(failures::<UpdateHostResult>(entries).contains(h) && skips(entries).contains(h)),
{
    failed_hosts_are_in_order::<UpdateHostResult>(entries);
    skipped_hosts_are_in_order(entries);
    entries_are_the_map(entries);
    if map_of(entries).dom().contains(h) {
        let i: int = choose|i: int| 0 <= i < entries.len() && (#[trigger] entries[i]).0 == h;
        assert(map_of(entries)[h] == entries[i].1);
    }
}

/// Whether `r` is what may come of the update of `host`: what a run comes to, with
/// whatever replies, or an error.
pub open spec fn comes_of_update(host: Seq<char>, r: Result<UpdateHostResult, Error>) -> bool {
    match r {
        Ok(hr) => exists|job: JobView, replies: Replies|
            job.host == host && (#[trigger] update_run(job, replies)).result == Ok::<
                UpdateView,
                ErrorView,
            >(hr.deep_view()),
        Err(_) => true,
    }
}

/// Whether there is a result for `h`.
pub open spec fn is_updated(
    results: Seq<(String, Result<UpdateHostResult, Error>)>,
    h: Seq<char>,
) -> bool {
    exists|i: int| 0 <= i < results.len() && (#[trigger] results[i]).0@ == h
}

/// A whole update reports exactly the resolved hosts, each with an outcome of its
/// own: a success exactly where there is no error.
pub proof fn updates_report_the_resolved_hosts(
    inv: InventoryView,
    pats: Seq<Seq<char>>,
    results: Seq<(String, Result<UpdateHostResult, Error>)>,
)
    requires
        resolution(inv, pats) is Ok,
        forall|h: Seq<char>| #[trigger]
            resolution(inv, pats)->Ok_0.contains(h) <==> is_updated(results, h),
        forall|i: int|
            0 <= i < results.len() ==> comes_of_update(
                (#[trigger] results[i]).0@,
                results[i].1,
            ),
    ensures
        forall|h: Seq<char>| #[trigger]
            by_host(reports(results)).dom().contains(h) <==> resolution(inv, pats)->Ok_0.contains(
                h,
            ),
        forall|h: Seq<char>| #[trigger]
            by_host(reports(results)).dom().contains(h) ==> is_outcome_of(
                by_host(reports(results))[h],
                h,
            ),
{
    let all = reports(results);
    reported_hosts_are_those_tried(all);
    every_host_is_reported(all);
    assert forall|h: Seq<char>| #[trigger] by_host(all).dom().contains(h) <==> is_updated(
        results,
        h,
    ) by {
        if is_tried(all, h) {
            let i: int = choose|i: int| 0 <= i < all.len() && (#[trigger] all[i]).0 == h;
            assert(results[i].0@ == h);
        }
        if is_updated(results, h) {
            let i: int = choose|i: int|
                0 <= i < results.len() && (#[trigger] results[i]).0@ == h;
            assert(all[i].0 == h);
        }
    }
    assert forall|h: Seq<char>| #[trigger] by_host(all).dom().contains(h) implies is_outcome_of(
        by_host(all)[h],
        h,
    ) by {
        let i: int = choose|i: int| #[trigger]
            is_last_for(all, h, i) && by_host(all)[h] == all[i].1;
        assert(comes_of_update(results[i].0@, results[i].1));
        if let Ok(hr) = results[i].1 {
            let (job, replies): (JobView, Replies) = choose|job: JobView, replies: Replies|
                job.host == results[i].0@ && (#[trigger] update_run(job, replies)).result == Ok::<
                    UpdateView,
                    ErrorView,
                >(hr.deep_view());
            lemma_result_is_an_outcome(job, replies);
        }
    }
}

proof fn lemma_result_is_an_outcome(job: JobView, replies: Replies)
    ensures
        update_run(job, replies).result matches Ok(v) ==> is_outcome_of(v, job.host),
{
    reveal_with_fuel(follow, 5);
}

/// Every script that an update runs reads its destination as exactly the given
/// path, whatever it holds, and the backup goes to that path with `.bak` added.
pub proof fn the_destination_is_read_back(dest: Seq<char>, mode: u32)
    ensures
        read_word(check_script(dest).skip("if [ -f "@.len() as int), false) matches Some((w, _))
            && w == dest,
        read_word(
            check_script(dest).skip(
                ("if [ -f "@ + quoted(dest) + " ]; then sha256sum "@).len() as int,
            ),
            false,
        ) matches Some((w, _)) && w == dest,
        read_word(backup_script(dest).skip("if [ -f "@.len() as int), false) matches Some((w, _))
            && w == dest,
        read_word(
            backup_script(dest).skip(("if [ -f "@ + quoted(dest) + " ]; then cp "@).len() as int),
            false,
        ) matches Some((w, _)) && w == dest,
        read_word(
            backup_script(dest).skip(
                ("if [ -f "@ + quoted(dest) + " ]; then cp "@ + quoted(dest) + " "@).len() as int,
            ),
            false,
        ) == Some((dest + ".bak"@, "; fi"@)),
        read_word(
            chmod_script(mode, dest).skip(
                ("chmod "@ + written(mode as nat, 8) + " "@).len() as int,
            ),
            false,
        ) == Some((dest, Seq::<char>::empty())),
{
    reveal_strlit(" ]; then sha256sum ");
    reveal_strlit(" 2>/dev/null | cut -d' ' -f1; else echo -1; fi");
    reveal_strlit(" ]; then cp ");
    reveal_strlit(" ");
    reveal_strlit(".bak; fi");
    reveal_strlit(".bak");
    reveal_strlit("; fi");
    let q = quoted(dest);
    let h1 = "if [ -f "@;

    let c = check_script(dest);
    let c_end = " 2>/dev/null | cut -d' ' -f1; else echo -1; fi"@;
    let c_rest = " ]; then sha256sum "@ + q + c_end;
    assert(c_rest[0] == ' ');
    assert(c.skip(h1.len() as int) =~= q + c_rest);
    quoting_is_read_back(dest, c_rest);
    let h2 = h1 + q + " ]; then sha256sum "@;
    assert(c.skip(h2.len() as int) =~= q + c_end);
    quoting_is_read_back(dest, c_end);

    let b = backup_script(dest);
    let b_end = ".bak; fi"@;
    let b_rest2 = " "@ + q + b_end;
    let b_rest = " ]; then cp "@ + q + b_rest2;
    assert(b_rest[0] == ' ' && b_rest2[0] == ' ');
    assert(b.skip(h1.len() as int) =~= q + b_rest);
    quoting_is_read_back(dest, b_rest);
    let h3 = h1 + q + " ]; then cp "@;
    assert(b.skip(h3.len() as int) =~= q + b_rest2);
    quoting_is_read_back(dest, b_rest2);
    let h4 = h3 + q + " "@;
    assert(b.skip(h4.len() as int) =~= q + b_end);
    quoting_begins_a_word(dest, b_end);
    lemma_bak_word();

    let m = chmod_script(mode, dest);
    let h5 = "chmod "@ + written(mode as nat, 8) + " "@;
    let none = Seq::<char>::empty();
    assert(m.skip(h5.len() as int) =~= q + none);
    quoting_is_read_back(dest, none);
}

proof fn lemma_bak_word()
    ensures
        read_word(".bak; fi"@, false) == Some((".bak"@, "; fi"@)),
{
    reveal_strlit(".bak; fi");
    reveal_strlit(".bak");
    reveal_strlit("; fi");
    let s = ".bak; fi"@;
    let s4 = s.drop_first().drop_first().drop_first().drop_first();
    assert(s4 =~= "; fi"@);
    reveal_with_fuel(read_word, 5);
    assert(read_word(s4, false) == Some((Seq::<char>::empty(), s4)));
    assert(seq!['.'] + (seq!['b'] + (seq!['a'] + (seq!['k'] + Seq::<char>::empty()))) =~= ".bak"@);
}

/// The mode is written to the script so that reading it in octal gives it back.
pub proof fn the_mode_is_octal(mode: u32)
    ensures
        value_in(written(mode as nat, 8), 8) == mode,
{
    written_numbers_are_read_back(mode as nat, 8);
}

/// The scripts of an update are fixed text around the quoted destination. The mode
/// is written in octal digits.
pub proof fn update_scripts_are_fixed_around_the_destination(dest: Seq<char>, mode: u32)
    ensures
        check_script(dest) == "if [ -f "@ + quoted(dest) + " ]; then sha256sum "@ + quoted(dest)
            + " 2>/dev/null | cut -d' ' -f1; else echo -1; fi"@,
        backup_script(dest) == "if [ -f "@ + quoted(dest) + " ]; then cp "@ + quoted(dest) + " "@
            + quoted(dest) + ".bak; fi"@,
        exists|digits: Seq<char>| #[trigger]
            is_octal(digits, mode) && chmod_script(mode, dest) == "chmod "@ + digits + " "@
                + quoted(dest),
{
    lemma_is_octal(mode);
    assert(chmod_script(mode, dest) == "chmod "@ + written(mode as nat, 8) + " "@ + quoted(dest));
}

/// Whether `digits` write `mode` in octal: without leading zeros, with digits from 0
/// to 7, and with that number in base 8.
pub open spec fn is_octal(digits: Seq<char>, mode: u32) -> bool {
    &&& digits.len() > 0
    &&& forall|i: int| 0 <= i < digits.len() ==> '0' <= #[trigger] digits[i] <= '7'
    &&& value_in(digits, 8) == mode
    &&& mode > 0 ==> digits[0] != '0'
}

pub(crate) proof fn lemma_is_octal(mode: u32)
    ensures
        is_octal(written(mode as nat, 8), mode),
{
    written_numbers_are_read_back(mode as nat, 8);
    numerals_have_no_leading_zeros(mode as nat, 8);
    let w = written(mode as nat, 8);
    assert forall|i: int| 0 <= i < w.len() implies '0' <= #[trigger] w[i] <= '7' by {
        assert('0' as int <= w[i] as int && w[i] as int - '0' as int <= 8 - 1);
    }
}

/// The outcome of an update is about its host and has no error. Where the file was
/// up to date nothing was copied; otherwise all bytes of the file were.
pub proof fn updates_count_the_bytes_of_the_file(job: JobView, replies: Replies)
    ensures
        update_run(job, replies).result matches Ok(v) ==> {
            &&& v.host == job.host
            &&& v.success
            &&& v.error is None
            &&& v.skipped <==> up_to_date(job, replies)
            &&& !v.skipped ==> v.bytes_copied == job.size
            &&& v.skipped ==> v.bytes_copied == 0
        },
{
    reveal_with_fuel(follow, 5);
}

/// Every push of an update pushes the local file to the destination on the host.
pub proof fn updates_push_what_is_asked(job: JobView, replies: Replies, i: int)
    requires
        0 <= i < update_run(job, replies).steps.len(),
    ensures
        update_run(job, replies).steps[i] matches StepView::Push(args) ==> is_push(
            args,
            job.host,
            job.src,
            job.dest,
            true,
        ),
{
    reveal_with_fuel(follow, 5);
    scp_copies_what_is_asked(job.host, job.src, job.dest, true);
}

/// The error of a command that was to do `what`: its own where it gave no result,
/// and what it said where it was no success.
pub open spec fn command_error(what: Seq<char>, reply: Result<HostResult, Error>) -> Option<
    ErrorView,
> {
    match reply {
        Err(e) => Some(e@),
        Ok(hr) => if hr.success {
            None
        } else {
            Some(ErrorView::Config(what + trimmed(hr.stderr@)))
        },
    }
}

/// An update stops at the first thing that fails, reports that error, and does
/// nothing after it.
pub proof fn updates_stop_at_the_first_error(job: JobView, replies: Replies)
    ensures
        ({
            let run = update_run(job, replies);
            let backup_fails = job.backup && command_error("backup failed: "@, replies.backup)
                is Some;
            let backups: int = if job.backup {
                1
            } else {
                0
            };
            &&& replies.check matches Err(e) ==> {
                &&& run.result == Err::<UpdateView, ErrorView>(e@)
                &&& run.steps.len() == 1
                &&& run.phases.len() == 1
            }
            &&& replies.check is Ok && !up_to_date(job, replies) && backup_fails ==> {
                &&& run.result == Err::<UpdateView, ErrorView>(
                    command_error("backup failed: "@, replies.backup)->Some_0,
                )
                &&& run.steps.len() == 2
                &&& run.phases == seq![UpdatePhase::Checking, UpdatePhase::BackingUp]
            }
            &&& replies.check is Ok && !up_to_date(job, replies) && !backup_fails ==> {
                &&& replies.push matches Err(e) ==> {
                    &&& run.result == Err::<UpdateView, ErrorView>(e@)
                    &&& run.steps.len() == 2 + backups
                    &&& run.phases == writing_phases(job).drop_last()
                }
                &&& replies.push is Ok && job.mode is Some && command_error(
                    "chmod failed: "@,
                    replies.chmod,
                ) is Some ==> {
                    &&& run.result == Err::<UpdateView, ErrorView>(
                        command_error("chmod failed: "@, replies.chmod)->Some_0,
                    )
                    &&& run.steps.len() == 3 + backups
                    &&& run.phases == writing_phases(job).drop_last()
                }
            }
        }),
{
    reveal_with_fuel(follow, 5);
    let run = update_run(job, replies);
    assert(writing_phases(job).drop_last() =~= (if job.backup {
        seq![UpdatePhase::Checking, UpdatePhase::BackingUp, UpdatePhase::Copying]
    } else {
        seq![UpdatePhase::Checking, UpdatePhase::Copying]
    }));
    if replies.check is Ok && !up_to_date(job, replies) {
        if job.backup {
            if command_error("backup failed: "@, replies.backup) is Some {
                assert(run.phases =~= seq![UpdatePhase::Checking, UpdatePhase::BackingUp]);
            } else if run.result is Err {
                assert(run.phases =~= seq![
                    UpdatePhase::Checking,
                    UpdatePhase::BackingUp,
                    UpdatePhase::Copying,
                ]);
            }
        } else if run.result is Err {
            assert(run.phases =~= seq![UpdatePhase::Checking, UpdatePhase::Copying]);
        }
    }
}

/// The aggregate holds for each host the very outcome that its update gave, byte
/// count included. For a host whose update failed it holds the error.
pub proof fn collected_updates_are_the_ones_given(
    results: Seq<(String, Result<UpdateHostResult, Error>)>,
    i: int,
)
    requires
        0 <= i < results.len(),
        forall|j: int| i < j < results.len() ==> (#[trigger] results[j]).0@ != results[i].0@,
    ensures
        ({
            let v = by_host(reports(results))[results[i].0@];
            match results[i].1 {
                Ok(hr) => shows_outcome(v, hr),
                Err(e) => {
                    &&& v.host == results[i].0@
                    &&& !v.success
                    &&& !v.skipped
                    &&& v.bytes_copied == 0
                    &&& v.error == Some(error_text(e@))
                },
            }
        }),
        reports(results).len() == results.len(),
        reports(results)[i].0 == results[i].0@,
{
    let all = reports(results);
    assert forall|j: int| i < j < all.len() implies (#[trigger] all[j]).0 != results[i].0@ by {
        assert(results[j].0@ != results[i].0@);
    }
    the_last_outcome_counts(all, results[i].0@, i);
}

/// Whether `v` holds all that `hr` does.
pub open spec fn shows_outcome(v: UpdateView, hr: UpdateHostResult) -> bool {
    &&& v.host == hr.host@
    &&& v.success == hr.success
    &&& v.skipped == hr.skipped
    &&& v.bytes_copied == hr.bytes_copied
    &&& match hr.error {
        Some(e) => v.error == Some(e@),
        None => v.error is None,
    }
}

/// A host that was updated and not skipped is reported with the size of the local
/// file, and one that was skipped with none of it.
pub proof fn reported_updates_count_the_bytes_of_the_file(
    results: Seq<(String, Result<UpdateHostResult, Error>)>,
    i: int,
    job: JobView,
    replies: Replies,
)
    requires
        0 <= i < results.len(),
        forall|j: int| i < j < results.len() ==> (#[trigger] results[j]).0@ != results[i].0@,
        results[i].1 matches Ok(hr) && update_run(job, replies).result == Ok::<
            UpdateView,
            ErrorView,
        >(hr.deep_view()),
    ensures
        ({
            let v = by_host(reports(results))[results[i].0@];
            &&& v.success
            &&& v.error is None
            &&& v.skipped <==> up_to_date(job, replies)
            &&& !v.skipped ==> v.bytes_copied == job.size
            &&& v.skipped ==> v.bytes_copied == 0
        }),
{
    collected_updates_are_the_ones_given(results, i);
    updates_count_the_bytes_of_the_file(job, replies);
    updates_show_what_they_hold(results[i].1->Ok_0);
}

/// An outcome shows all that it holds.
pub proof fn updates_show_what_they_hold(hr: UpdateHostResult)
    ensures
        shows_outcome(hr.deep_view(), hr),
{
}

/// A job, a step and a move show exactly what they hold.
pub proof fn update_steps_show_what_they_hold(job: UpdateJob, m: UpdateMove)
    ensures
        job@.host == job.host@,
        job@.src == job.src@,
        job@.dest == job.dest@,
        job@.local_sum == job.local_sum@,
        job@.size == job.size,
        job@.backup == job.backup,
        job@.mode == job.mode,
        m@.phases == m.phases@,
        match m.step {
            UpdateStep::Check(s) => m@.step == StepView::Check(s@),
            UpdateStep::Backup(s) => m@.step == StepView::Backup(s@),
            UpdateStep::Push(v) => {
                &&& m@.step matches StepView::Push(args)
                &&& args.len() == v@.len()
                &&& forall|i: int| 0 <= i < v@.len() ==> #[trigger] args[i] == v@[i]@
            },
            UpdateStep::Chmod(s) => m@.step == StepView::Chmod(s@),
            UpdateStep::Finish(Ok(hr)) => m@.step == StepView::Finish(Ok(hr.deep_view())),
            UpdateStep::Finish(Err(e)) => m@.step == StepView::Finish(Err(e@)),
        },
{
}

/// An update succeeded exactly on the hosts whose outcome says so, and the failed
/// and the skipped hosts are those that the outcomes of that kind name.
pub proof fn updates_fail_and_skip_as_their_outcomes_say(
    entries: Seq<(Seq<char>, UpdateView)>,
    more: Seq<(Seq<char>, UpdateView)>,
    h: Seq<char>,
)
    ensures
        all_succeeded::<UpdateHostResult>(entries) <==> forall|i: int|
            0 <= i < entries.len() ==> (#[trigger] entries[i]).1.success,
        failures::<UpdateHostResult>(entries).contains(h) <==> exists|i: int|
            0 <= i < entries.len() && !(#[trigger] entries[i]).1.success && entries[i].1.host == h,
        skips(entries).contains(h) <==> exists|i: int|
            0 <= i < entries.len() && (#[trigger] entries[i]).1.skipped && entries[i].1.host == h,
        skips(entries + more) == skips(entries) + skips(more),
{
    failures_are_the_hosts_that_failed::<UpdateHostResult>(entries, h);
    hosts_where_are_those::<UpdateHostResult>(entries, |v: UpdateView| v.skipped, h);
    if more.len() > 0 {
        hosts_are_listed_one_by_one::<UpdateHostResult>(
            entries,
            more[0],
            more,
            |v: UpdateView| v.skipped,
        );
    } else {
        assert(entries + more =~= entries);
        assert(skips(entries) + skips(more) =~= skips(entries));
    }
    assert forall|v: UpdateView| #[trigger] UpdateHostResult::succeeded(v) == v.success by {}
    assert forall|v: UpdateView| #[trigger] UpdateHostResult::about(v) == v.host by {}
    if all_succeeded::<UpdateHostResult>(entries) {
        assert forall|i: int| 0 <= i < entries.len() implies (#[trigger] entries[i]).1.success by {
            assert(UpdateHostResult::succeeded(entries[i].1));
        }
    }
}

} // verus!
