//! Write in-memory content to a remote file, creating parent directories first,
//! and read a remote file's bytes back. Both pass through base64, so that any
//! bytes survive.

use crate::client::Dispatch;
use crate::codec::{
    base64_bytes, base64_decode, base64_encode, base64_text, fits_base64, is_base64,
    is_base64_char,
};
use crate::config::Timeout;
use crate::error::{config_error, error_text, Error, ErrorView};
use crate::exec::{at_least_one, one_or_more, optional, HostResult};
use crate::inventory::resolution;
use crate::number::{octal, written};
use crate::ordered::{ascending, OrderedMap};
use crate::outcome::{
    all_succeeded, by_host, every_host_is_reported, every_success, failed, failures,
    failures_are_the_hosts_that_failed, in_time, is_last_for, is_tried,
    reported_hosts_are_those_tried, the_last_outcome_counts, timely, Outcome,
};
use crate::paths::{parent_of, remote_parent};
use crate::shell::{quoted, quoting_is_read_back, read_word, shell_quote};
use crate::text::{is_white_space, squeeze, trim, trimmed, views, without_white_space};
use crate::transfer::mkdir_script;
use crate::update::{is_octal, lemma_is_octal};
use vstd::prelude::*;

verus! {

// ---------------------------------------------------------------------------
// Write
// ---------------------------------------------------------------------------

/// The part of the write script that makes the directory of `dest`.
pub open spec fn write_head(dest: Seq<char>) -> Seq<char> {
    match parent_of(dest) {
        Some(dir) => mkdir_script(dir) + " && "@,
        None => Seq::empty(),
    }
}

/// The part of the write script that sets the mode of `dest`.
pub open spec fn write_tail(dest: Seq<char>, mode: Option<u32>) -> Seq<char> {
    match mode {
        Some(m) => " && chmod "@ + written(m as nat, 8) + " "@ + quoted(dest),
        None => Seq::empty(),
    }
}

/// The script that writes the bytes with the base64 text `payload` to `dest`.
pub open spec fn write_script_of(
    payload: Seq<char>,
    dest: Seq<char>,
    mode: Option<u32>,
) -> Seq<char> {
    write_head(dest) + "printf %s "@ + quoted(payload) + " | base64 -d > "@ + quoted(dest)
        + write_tail(dest, mode)
}

/// The script that writes the bytes with the base64 text `payload` to `dest`,
/// creating the directory that it lies in and setting its mode.
pub fn write_script(payload: &str, dest: &str, mode: Option<u32>) -> (r: String)
    ensures
        r@ == write_script_of(payload@, dest@, mode),
{
    let qdest: String = shell_quote(dest);
    let mut script = String::new();
    if let Some(dir) = remote_parent(dest) {
        script.append("mkdir -p ");
        script.append(shell_quote(dir.as_str()).as_str());
        script.append(" && ");
    }
    assert(script@ =~= write_head(dest@));
    script.append("printf %s ");
    script.append(shell_quote(payload).as_str());
    script.append(" | base64 -d > ");
    script.append(qdest.as_str());
    let ghost body = script@;
    if let Some(m) = mode {
        script.append(" && chmod ");
        script.append(octal(m).as_str());
        script.append(" ");
        script.append(qdest.as_str());
    }
    assert(script@ =~= body + write_tail(dest@, mode));
    script
}

/// What comes of a write, from what came of its script; `None` stands for a script
/// that did not finish in time.
pub open spec fn write_view(host: Seq<char>, outcome: Option<Result<HostResult, Error>>) -> Result<
    (),
    ErrorView,
> {
    match timely("write to "@, host, outcome) {
        Ok(hr) => if hr.success {
            Ok(())
        } else {
            Err(ErrorView::Config("write failed: "@ + trimmed(hr.stderr@)))
        },
        Err(e) => Err(e),
    }
}

/// What comes of a write, from what came of its script; `None` stands for a script
/// that did not finish in time.
pub fn write_outcome(host: &str, outcome: Option<Result<HostResult, Error>>) -> (r: Result<
    (),
    Error,
>)
    ensures
        match write_view(host@, outcome) {
            Ok(_) => r is Ok,
            Err(e) => r matches Err(x) && x@ == e,
        },
{
    match in_time("write to ", host, outcome) {
        Ok(hr) => if hr.success {
            Ok(())
        } else {
            Err(config_error("write failed: ", trim(hr.stderr.as_str()).as_str()))
        },
        Err(e) => Err(e),
    }
}

/// Builder for [`Dispatch::write`].
pub struct WriteBuilder<'a> {
    pub dispatch: &'a Dispatch,
    pub patterns: Vec<String>,
    pub content: Vec<u8>,
    pub dest: String,
    pub parallel: usize,
    pub mode: Option<u32>,
    pub timeout: Timeout,
}

/// What a [`WriteBuilder`] comes to: the hosts, and the script for each of them.
#[derive(Debug, Clone)]
pub struct WritePlan {
    pub hosts: Vec<String>,
    pub script: String,
    /// The remote file, for the report.
    pub dest: String,
    /// How long one host may take.
    pub timeout: Timeout,
    /// How many hosts are written to at once.
    pub parallel: usize,
}

impl<'a> WriteBuilder<'a> {
    pub(crate) fn new(
        dispatch: &'a Dispatch,
        patterns: Vec<String>,
        content: Vec<u8>,
        dest: String,
    ) -> (r: Self)
        ensures
            r == (WriteBuilder {
                dispatch,
                patterns,
                content,
                dest,
                parallel: dispatch.config.parallel,
                mode: None,
                timeout: dispatch.config.timeout,
            }),
    {
        WriteBuilder {
            parallel: dispatch.config.parallel,
            timeout: dispatch.config.timeout,
            dispatch,
            patterns,
            content,
            dest,
            mode: None,
        }
    }

    /// Max hosts written to concurrently.
    pub fn parallel(self, n: usize) -> (r: Self)
        ensures
            r == (WriteBuilder { parallel: at_least_one(n), ..self }),
    {
        WriteBuilder { parallel: one_or_more(n), ..self }
    }

    /// `chmod` the file to this (octal) mode after writing, e.g. `0o600`.
    pub fn mode(self, mode: u32) -> (r: Self)
        ensures
            r == (WriteBuilder { mode: Some(mode), ..self }),
    {
        WriteBuilder { mode: Some(mode), ..self }
    }

    /// Resolves the hosts and settles the script for each of them.
    ///
    /// What is written can be read back: a file with the content prints as base64
    /// text that [`read_outcome`] turns into the content, whatever white space is
    /// put between its characters.
    pub fn plan(&self) -> (r: Result<WritePlan, Error>)
        requires
            fits_base64(self.content@.len()),
        ensures
            match resolution(self.dispatch.inventory@, views(self.patterns@)) {
                Ok(hosts) => {
                    &&& r matches Ok(p)
                    &&& views(p.hosts@) == hosts
                    &&& p.script@ == write_script_of(
                        base64_text(self.content@),
                        self.dest@,
                        self.mode,
                    )
                    &&& p.dest@ == self.dest@
                    &&& p.timeout == self.timeout
                    &&& p.parallel == self.parallel
                    &&& forall|printed: Seq<char>|
                        without_white_space(printed) == base64_text(self.content@)
                            ==> #[trigger] content_of(printed) == Ok::<Seq<u8>, Seq<char>>(
                            self.content@,
                        )
                    &&& content_of(base64_text(self.content@)) == Ok::<Seq<u8>, Seq<char>>(
                        self.content@,
                    )
                },
                Err(e) => r matches Err(x) && x@ == e,
            },
    {
        let hosts: Vec<String> = match self.dispatch.inventory.resolve(self.patterns.as_slice()) {
            Ok(hosts) => hosts,
            Err(e) => return Err(e),
        };
        let payload: String = base64_encode(self.content.as_slice());
        proof {
            lemma_no_white_space(payload@);
        }
        Ok(
            WritePlan {
                hosts,
                script: write_script(payload.as_str(), self.dest.as_str(), self.mode),
                dest: self.dest.clone(),
                timeout: self.timeout,
                parallel: self.parallel,
            },
        )
    }
}

proof fn lemma_no_white_space(s: Seq<char>)
    requires
        is_base64(s),
    ensures
        without_white_space(s) == s,
    decreases s.len(),
{
    reveal(Seq::filter);
    if s.len() > 0 {
        let rest = s.drop_last();
        assert forall|i: int| 0 <= i < rest.len() implies is_base64_char(#[trigger] rest[i]) by {
            assert(rest[i] == s[i]);
        }
        lemma_no_white_space(rest);
        assert(is_base64_char(s[s.len() - 1]));
        assert(s =~= rest.push(s.last()));
    } else {
        assert(s.filter(|c: char| !is_white_space(c)) =~= s);
    }
}

/// The write script reads its payload and its destination as exactly what was
/// given, whatever they hold.
pub proof fn the_payload_and_destination_are_read_back(
    payload: Seq<char>,
    dest: Seq<char>,
    mode: Option<u32>,
)
    ensures
        ({
            let script = write_script_of(payload, dest, mode);
            let head = write_head(dest) + "printf %s "@;
            let middle = head + quoted(payload) + " | base64 -d > "@;
            &&& read_word(script.skip(head.len() as int), false) matches Some((w, _)) && w
                == payload
            &&& read_word(script.skip(middle.len() as int), false) == Some(
                (dest, write_tail(dest, mode)),
            )
        }),
{
    reveal_strlit(" | base64 -d > ");
    reveal_strlit(" && chmod ");
    let script = write_script_of(payload, dest, mode);
    let head = write_head(dest) + "printf %s "@;
    let middle = head + quoted(payload) + " | base64 -d > "@;
    let tail = write_tail(dest, mode);
    let rest = " | base64 -d > "@ + quoted(dest) + tail;
    assert(rest[0] == ' ');
    assert(script.skip(head.len() as int) =~= quoted(payload) + rest);
    quoting_is_read_back(payload, rest);
    if mode is Some {
        assert(tail[0] == ' ');
    }
    assert(script.skip(middle.len() as int) =~= quoted(dest) + tail);
    quoting_is_read_back(dest, tail);
}

/// The write script makes the directory that the destination lies in before it
/// writes, and that directory is exactly the destination's parent.
pub proof fn the_directory_is_made_first(
    payload: Seq<char>,
    dest: Seq<char>,
    mode: Option<u32>,
    dir: Seq<char>,
)
    requires
        parent_of(dest) == Some(dir),
    ensures
        ({
            let script = write_script_of(payload, dest, mode);
            let rest = " && "@ + script.skip(write_head(dest).len() as int);
            &&& script == "mkdir -p "@ + quoted(dir) + rest
            &&& read_word(script.skip("mkdir -p "@.len() as int), false) == Some((dir, rest))
        }),
{
    reveal_strlit(" && ");
    let script = write_script_of(payload, dest, mode);
    let rest = " && "@ + script.skip(write_head(dest).len() as int);
    assert(rest[0] == ' ');
    assert(script =~= write_head(dest) + script.skip(write_head(dest).len() as int));
    assert(script =~= "mkdir -p "@ + quoted(dir) + rest);
    quoting_is_read_back(dir, rest);
    assert(script.skip("mkdir -p "@.len() as int) =~= quoted(dir) + rest);
}

// ---------------------------------------------------------------------------
// Read
// ---------------------------------------------------------------------------

/// Per-host read outcome.
#[derive(Debug, Clone)]
pub struct ReadHostResult {
    pub host: String,
    pub success: bool,
    pub content: Vec<u8>,
    pub error: Option<String>,
}

/// What a [`ReadHostResult`] holds.
#[verifier::ext_equal]
pub struct ReadView {
    pub host: Seq<char>,
    pub success: bool,
    pub content: Seq<u8>,
    pub error: Option<Seq<char>>,
}

impl DeepView for ReadHostResult {
    type V = ReadView;

    open spec fn deep_view(&self) -> ReadView {
        ReadView {
            host: self.host@,
            success: self.success,
            content: self.content@,
            error: optional(self.error),
        }
    }
}

impl Outcome for ReadHostResult {
    open spec fn succeeded(v: ReadView) -> bool {
        v.success
    }

    open spec fn about(v: ReadView) -> Seq<char> {
        v.host
    }

    fn ok(&self) -> bool {
        self.success
    }

    fn host_name(&self) -> &String {
        &self.host
    }
}

/// Aggregate read result keyed by host.
#[derive(Debug, Clone)]
pub struct ReadResult {
    pub hosts: OrderedMap<ReadHostResult>,
}

/// What the content that a read brought, or its error, holds.
pub open spec fn read_held(r: Result<Vec<u8>, Error>) -> Result<Seq<u8>, ErrorView> {
    match r {
        Ok(content) => Ok(content@),
        Err(e) => Err(e@),
    }
}

/// The outcome to report for `host`: the content, or the error.
pub open spec fn read_reported(host: Seq<char>, r: Result<Seq<u8>, ErrorView>) -> ReadView {
    match r {
        Ok(content) => ReadView { host, success: true, content, error: None },
        Err(e) => ReadView {
            host,
            success: false,
            content: Seq::empty(),
            error: Some(error_text(e)),
        },
    }
}

/// What is reported for each of `results`.
pub open spec fn reports(results: Seq<(String, Result<Vec<u8>, Error>)>) -> Seq<
    (Seq<char>, ReadView),
> {
    results.map_values(
        |r: (String, Result<Vec<u8>, Error>)| (r.0@, read_reported(r.0@, read_held(r.1))),
    )
}

impl ReadResult {
    /// Whether the file was read from every host.
    pub fn all_success(&self) -> (r: bool)
        ensures
            r == all_succeeded::<ReadHostResult>(self.hosts.entries()),
    {
        every_success(&self.hosts)
    }

    /// The hosts from which it was not.
    pub fn failed_hosts(&self) -> (r: Vec<String>)
        ensures
            views(r@) == failures::<ReadHostResult>(self.hosts.entries()),
    {
        failed(&self.hosts)
    }

    /// The aggregate of the outcomes of all hosts.
    pub fn collect(results: Vec<(String, Result<Vec<u8>, Error>)>) -> (r: Self)
        ensures
            r.hosts.deep_view() == by_host(reports(results@)),
            ascending(r.hosts.entries()),
    {
        let mut hosts: OrderedMap<ReadHostResult> = OrderedMap::new();
        let ghost all = results@;
        let ghost mut n: int = 0;
        assert(all.take(0) =~= Seq::empty());
        for (host, res) in it: results
            invariant
                it.seq() == all,
                n == it.index(),
                hosts.deep_view() == by_host(reports(all.take(n))),
                ascending(hosts.entries()),
        {
            let hr: ReadHostResult = match res {
                Ok(content) => ReadHostResult {
                    host: host.clone(),
                    success: true,
                    content,
                    error: None,
                },
                Err(e) => ReadHostResult {
                    host: host.clone(),
                    success: false,
                    content: Vec::new(),
                    error: Some(e.message()),
                },
            };
            assert(hr.deep_view() =~= read_reported(host@, read_held(res)));
            hosts.insert(host, hr);
            proof {
                assert(reports(all.take(n + 1)).drop_last() =~= reports(all.take(n)));
                assert(all.take(n + 1).last() == (host, res));
                n = n + 1;
            }
        }
        assert(all.take(all.len() as int) =~= all);
        ReadResult { hosts }
    }
}

/// The script that prints a remote file as base64 text.
pub open spec fn read_script_of(path: Seq<char>) -> Seq<char> {
    "base64 "@ + quoted(path)
}

/// The script that prints a remote file as base64 text.
pub fn read_script(path: &str) -> (r: String)
    ensures
        r@ == read_script_of(path@),
{
    "base64 ".to_owned().concat(shell_quote(path).as_str())
}

/// The read script reads exactly the given path, whatever it holds.
pub proof fn the_path_is_read_back(path: Seq<char>)
    ensures
        read_word(read_script_of(path).skip("base64 "@.len() as int), false) == Some(
            (path, Seq::<char>::empty()),
        ),
{
    let none = Seq::<char>::empty();
    quoting_is_read_back(path, none);
    assert(read_script_of(path).skip("base64 "@.len() as int) =~= quoted(path) + none);
}

/// The bytes that the printed base64 text stands for, or the text of the error.
/// White space in it does not count: where lines are broken differs from one
/// `base64` to the other.
pub open spec fn content_of(printed: Seq<char>) -> Result<Seq<u8>, Seq<char>> {
    base64_bytes(without_white_space(printed))
}

/// What comes of a read, from what came of its script and from what its output
/// decodes to.
pub open spec fn read_view(
    host: Seq<char>,
    outcome: Option<Result<HostResult, Error>>,
    content: Result<Seq<u8>, Seq<char>>,
) -> Result<Seq<u8>, ErrorView> {
    match timely("read from "@, host, outcome) {
        Err(e) => Err(e),
        Ok(hr) => if !hr.success {
            Err(ErrorView::Config("read failed: "@ + trimmed(hr.stderr@)))
        } else {
            match content {
                Ok(bytes) => Ok(bytes),
                Err(text) => Err(
                    ErrorView::Config("invalid base64 from "@ + host + ": "@ + text),
                ),
            }
        },
    }
}

/// What comes of a read whose output was decoded to `content`, or could not be.
pub fn read_decoded(host: &str, content: Result<Vec<u8>, String>) -> (r: Result<Vec<u8>, Error>)
    ensures
        match content {
            Ok(bytes) => r matches Ok(v) && v@ == bytes@,
            Err(text) => r matches Err(e) && e@ == ErrorView::Config(
                "invalid base64 from "@ + host@ + ": "@ + text@,
            ),
        },
{
    match content {
        Ok(bytes) => Ok(bytes),
        Err(text) => Err(
            Error::Config(
                "invalid base64 from ".to_owned().concat(host).concat(": ").concat(
                    text.as_str(),
                ),
            ),
        ),
    }
}

/// The printed output of a read that came to its end, or the error of one that
/// did not; `None` stands for a script that did not finish in time.
pub fn read_output(host: &str, outcome: Option<Result<HostResult, Error>>) -> (r: Result<
    String,
    Error,
>)
    ensures
        match timely("read from "@, host@, outcome) {
            Err(e) => r matches Err(x) && x@ == e,
            Ok(hr) => if !hr.success {
                r matches Err(x) && x@ == ErrorView::Config(
                    "read failed: "@ + trimmed(hr.stderr@),
                )
            } else {
                r matches Ok(s) && s@ == hr.stdout@
            },
        },
{
    match in_time("read from ", host, outcome) {
        Err(e) => Err(e),
        Ok(hr) => if !hr.success {
            Err(config_error("read failed: ", trim(hr.stderr.as_str()).as_str()))
        } else {
            Ok(hr.stdout)
        },
    }
}

/// What comes of a read, from what came of its script.
pub open spec fn read_of(host: Seq<char>, outcome: Option<Result<HostResult, Error>>) -> Result<
    Seq<u8>,
    ErrorView,
> {
    read_view(host, outcome, content_of((timely("read from "@, host, outcome)->Ok_0).stdout@))
}

/// Whether a script that succeeded printed `content` as base64 text, whatever
/// white space stands between its characters.
pub open spec fn prints(outcome: Option<Result<HostResult, Error>>, content: Seq<u8>) -> bool {
    match outcome {
        Some(Ok(hr)) => hr.success ==> without_white_space(hr.stdout@) == base64_text(content),
        _ => true,
    }
}

/// Whether an outcome is that of a file with the given content: the content and no
/// error where it was read, no content and an error where it was not.
pub open spec fn is_read_of(v: ReadView, content: Seq<u8>) -> bool {
    if v.success {
        v.content == content && v.error is None
    } else {
        v.content.len() == 0 && v.error is Some
    }
}

/// Whether the outcome to report of a read is that of a file with the given content.
pub open spec fn reads_back(
    host: Seq<char>,
    outcome: Option<Result<HostResult, Error>>,
    content: Seq<u8>,
) -> bool {
    is_read_of(read_reported(host, read_of(host, outcome)), content)
}

/// The content that a read brought, from what came of its script; `None` stands
/// for a script that did not finish in time. A file whose content is printed as
/// base64 text gives that content.
pub fn read_outcome(host: &str, outcome: Option<Result<HostResult, Error>>) -> (r: Result<
    Vec<u8>,
    Error,
>)
    ensures
        read_held(r) == read_of(host@, outcome),
        forall|content: Seq<u8>|
            fits_base64(content.len()) && #[trigger] prints(outcome, content) ==> reads_back(
                host@,
                outcome,
                content,
            ),
{
    match read_output(host, outcome) {
        Err(e) => Err(e),
        Ok(printed) => {
            let cleaned: String = squeeze(printed.as_str());
            read_decoded(host, base64_decode(cleaned.as_str()))
        },
    }
}

/// What is reported of each read, from what came of the scripts.
pub open spec fn replies(outcomes: Seq<(String, Option<Result<HostResult, Error>>)>) -> Seq<
    (Seq<char>, ReadView),
> {
    outcomes.map_values(
        |o: (String, Option<Result<HostResult, Error>>)|
            (o.0@, read_reported(o.0@, read_of(o.0@, o.1))),
    )
}

/// Whether every script that succeeded printed `content` as base64 text.
pub open spec fn all_print(
    outcomes: Seq<(String, Option<Result<HostResult, Error>>)>,
    content: Seq<u8>,
) -> bool {
    forall|i: int| 0 <= i < outcomes.len() ==> prints((#[trigger] outcomes[i]).1, content)
}

/// Whether every outcome is that of a file with the given content.
pub open spec fn all_read_back(hosts: Map<Seq<char>, ReadView>, content: Seq<u8>) -> bool {
    forall|h: Seq<char>| #[trigger] hosts.dom().contains(h) ==> is_read_of(hosts[h], content)
}

/// Whether `h` is among the hosts of `outcomes`.
pub open spec fn is_asked(
    outcomes: Seq<(String, Option<Result<HostResult, Error>>)>,
    h: Seq<char>,
) -> bool {
    exists|i: int| 0 <= i < outcomes.len() && (#[trigger] outcomes[i]).0@ == h
}

/// The aggregate of a read, from what came of the script on each host; `None`
/// stands for a script that did not finish in time.
///
/// Exactly the hosts that were asked are reported. What was written is read back:
/// where each of them has a file with the content, whatever bytes it is made of,
/// each is reported with exactly that content, or with an error and none.
pub fn read_all(outcomes: Vec<(String, Option<Result<HostResult, Error>>)>) -> (r: ReadResult)
    ensures
        r.hosts.deep_view() == by_host(replies(outcomes@)),
        ascending(r.hosts.entries()),
        forall|h: Seq<char>| #[trigger]
            r.hosts.deep_view().dom().contains(h) <==> is_asked(outcomes@, h),
        forall|content: Seq<u8>|
            fits_base64(content.len()) && #[trigger] all_print(outcomes@, content)
                ==> all_read_back(r.hosts.deep_view(), content),
{
    let ghost all = outcomes@;
    let ghost mut n: int = 0;
    let mut results: Vec<(String, Result<Vec<u8>, Error>)> = Vec::new();
    for (host, outcome) in it: outcomes
        invariant
            it.seq() == all,
            n == it.index(),
            results@.len() == n,
            forall|j: int|
                0 <= j < n ==> {
                    &&& (#[trigger] results@[j]).0@ == all[j].0@
                    &&& read_held(results@[j].1) == read_of(all[j].0@, all[j].1)
                },
            forall|j: int, content: Seq<u8>|
                0 <= j < n && fits_base64(content.len()) && #[trigger] prints(all[j].1, content)
                    ==> reads_back(all[j].0@, all[j].1, content),
    {
        assert(all[n] == (host, outcome));
        let res: Result<Vec<u8>, Error> = read_outcome(host.as_str(), outcome);
        results.push((host, res));
        proof {
            n = n + 1;
        }
    }
    assert(reports(results@) =~= replies(all));
    let r: ReadResult = ReadResult::collect(results);
    proof {
        lemma_asked(all);
        let hosts = r.hosts.deep_view();
        assert forall|content: Seq<u8>|
            fits_base64(content.len()) && #[trigger] all_print(all, content) implies all_read_back(
            hosts,
            content,
        ) by {
            every_host_is_reported(replies(all));
            assert forall|h: Seq<char>| #[trigger] hosts.dom().contains(h) implies is_read_of(
                hosts[h],
                content,
            ) by {
                let i: int = choose|i: int| #[trigger]
                    is_last_for(replies(all), h, i) && hosts[h] == replies(all)[i].1;
                assert(prints(all[i].1, content));
            }
        }
    }
    r
}

proof fn lemma_asked(outcomes: Seq<(String, Option<Result<HostResult, Error>>)>)
    ensures
        forall|h: Seq<char>| #[trigger]
            by_host(replies(outcomes)).dom().contains(h) <==> is_asked(outcomes, h),
{
    let rs = replies(outcomes);
    reported_hosts_are_those_tried(rs);
    assert forall|h: Seq<char>| #[trigger] by_host(rs).dom().contains(h) <==> is_asked(
        outcomes,
        h,
    ) by {
        if is_tried(rs, h) {
            let i: int = choose|i: int| 0 <= i < rs.len() && (#[trigger] rs[i]).0 == h;
            assert(outcomes[i].0@ == h);
        }
        if is_asked(outcomes, h) {
            let i: int = choose|i: int|
                0 <= i < outcomes.len() && (#[trigger] outcomes[i]).0@ == h;
            assert(rs[i].0 == h);
        }
    }
}

/// Builder for [`Dispatch::read`].
pub struct ReadBuilder<'a> {
    pub dispatch: &'a Dispatch,
    pub patterns: Vec<String>,
    pub path: String,
    pub parallel: usize,
    pub timeout: Timeout,
}

/// What a [`ReadBuilder`] comes to: the hosts, and the script for each of them.
#[derive(Debug, Clone)]
pub struct ReadPlan {
    pub hosts: Vec<String>,
    pub script: String,
    /// How long one host may take.
    pub timeout: Timeout,
    /// How many hosts are read from at once.
    pub parallel: usize,
}

impl<'a> ReadBuilder<'a> {
    pub(crate) fn new(dispatch: &'a Dispatch, patterns: Vec<String>, path: String) -> (r: Self)
        ensures
            r == (ReadBuilder {
                dispatch,
                patterns,
                path,
                parallel: dispatch.config.parallel,
                timeout: dispatch.config.timeout,
            }),
    {
        ReadBuilder {
            parallel: dispatch.config.parallel,
            timeout: dispatch.config.timeout,
            dispatch,
            patterns,
            path,
        }
    }

    /// Max hosts read from concurrently.
    pub fn parallel(self, n: usize) -> (r: Self)
        ensures
            r == (ReadBuilder { parallel: at_least_one(n), ..self }),
    {
        ReadBuilder { parallel: one_or_more(n), ..self }
    }

    /// Resolves the hosts and settles the script for each of them.
    pub fn plan(&self) -> (r: Result<ReadPlan, Error>)
        ensures
            match resolution(self.dispatch.inventory@, views(self.patterns@)) {
                Ok(hosts) => {
                    &&& r matches Ok(p)
                    &&& views(p.hosts@) == hosts
                    &&& p.script@ == read_script_of(self.path@)
                    &&& p.timeout == self.timeout
                    &&& p.parallel == self.parallel
                },
                Err(e) => r matches Err(x) && x@ == e,
            },
    {
        let hosts: Vec<String> = match self.dispatch.inventory.resolve(self.patterns.as_slice()) {
            Ok(hosts) => hosts,
            Err(e) => return Err(e),
        };
        Ok(
            ReadPlan {
                hosts,
                script: read_script(self.path.as_str()),
                timeout: self.timeout,
                parallel: self.parallel,
            },
        )
    }
}

// ---------------------------------------------------------------------------
// Laws
// ---------------------------------------------------------------------------

/// A write script makes the destination's directory, where it lies in one, decodes
/// the payload into the destination, and sets the mode where one is given: with
/// `chmod`, digits that write exactly that mode in octal, and the destination as one
/// word.
pub proof fn write_scripts_make_write_and_set_the_mode(
    payload: Seq<char>,
    dest: Seq<char>,
    mode: Option<u32>,
)
    ensures
        ({
            let script = write_script_of(payload, dest, mode);
            let write = "printf %s "@ + quoted(payload) + " | base64 -d > "@ + quoted(dest);
            &&& write_head(dest) == (match parent_of(dest) {
                Some(dir) => "mkdir -p "@ + quoted(dir) + " && "@,
                None => Seq::<char>::empty(),
            })
            &&& script == write_head(dest) + write + write_tail(dest, mode)
            &&& match mode {
                Some(m) => exists|digits: Seq<char>| #[trigger]
                    is_octal(digits, m) && write_tail(dest, mode) == " && chmod "@ + digits + " "@
                        + quoted(dest) && read_word(
                        write_tail(dest, mode).skip((" && chmod "@ + digits + " "@).len() as int),
                        false,
                    ) == Some((dest, Seq::<char>::empty())),
                None => write_tail(dest, mode).len() == 0,
            }
        }),
{
    let script = write_script_of(payload, dest, mode);
    let write = "printf %s "@ + quoted(payload) + " | base64 -d > "@ + quoted(dest);
    assert(script =~= write_head(dest) + write + write_tail(dest, mode));
    if let Some(m) = mode {
        let digits = written(m as nat, 8);
        lemma_is_octal(m);
        let head = " && chmod "@ + digits + " "@;
        let none = Seq::<char>::empty();
        assert(write_tail(dest, mode) == head + quoted(dest));
        quoting_is_read_back(dest, none);
        assert(write_tail(dest, mode).skip(head.len() as int) =~= quoted(dest) + none);
        assert(is_octal(digits, m));
    }
}

/// A write succeeds exactly where its script ran in time and succeeded. Otherwise
/// the error is that of the connection, what the script said, or that it was late.
pub proof fn writes_succeed_with_their_script(host: Seq<char>, hr: HostResult, e: Error)
    ensures
        hr.success ==> write_view(host, Some(Ok(hr))) is Ok,
        !hr.success ==> write_view(host, Some(Ok(hr))) == Err::<(), ErrorView>(
            ErrorView::Config("write failed: "@ + trimmed(hr.stderr@)),
        ),
        write_view(host, Some(Err(e))) == Err::<(), ErrorView>(e@),
        write_view(host, None) == Err::<(), ErrorView>(
            ErrorView::Config("write to "@ + host + " timed out"@),
        ),
{
}

/// A read script prints the quoted path as base64.
pub proof fn read_scripts_print_the_path(path: Seq<char>)
    ensures
        read_script_of(path) == "base64 "@ + quoted(path),
{
}

/// A read gives what the output of its script decodes to without its white space,
/// where the script ran in time and succeeded. Otherwise the error is that of the
/// connection, what the script said, that the output is no base64, or that it was
/// late.
pub proof fn reads_decode_what_is_printed(host: Seq<char>, hr: HostResult, e: Error)
    ensures
        hr.success ==> match base64_bytes(without_white_space(hr.stdout@)) {
            Ok(bytes) => read_of(host, Some(Ok(hr))) == Ok::<Seq<u8>, ErrorView>(bytes),
            Err(text) => read_of(host, Some(Ok(hr))) == Err::<Seq<u8>, ErrorView>(
                ErrorView::Config("invalid base64 from "@ + host + ": "@ + text),
            ),
        },
        !hr.success ==> read_of(host, Some(Ok(hr))) == Err::<Seq<u8>, ErrorView>(
            ErrorView::Config("read failed: "@ + trimmed(hr.stderr@)),
        ),
        read_of(host, Some(Err(e))) == Err::<Seq<u8>, ErrorView>(e@),
        read_of(host, None) == Err::<Seq<u8>, ErrorView>(
            ErrorView::Config("read from "@ + host + " timed out"@),
        ),
        content_of(hr.stdout@) == base64_bytes(without_white_space(hr.stdout@)),
{
}

/// Whether `v` is how a read of `host` is reported that came to `r`: with the
/// content and no error, or with the error and no content.
pub open spec fn shows_read(v: ReadView, host: Seq<char>, r: Result<Seq<u8>, ErrorView>) -> bool {
    &&& v.host == host
    &&& match r {
        Ok(content) => v.success && v.content == content && v.error is None,
        Err(e) => !v.success && v.content.len() == 0 && v.error == Some(error_text(e)),
    }
}

/// The aggregate holds for each host the very content that was read, or the error.
pub proof fn collected_reads_are_the_ones_given(
    results: Seq<(String, Result<Vec<u8>, Error>)>,
    i: int,
)
    requires
        0 <= i < results.len(),
        forall|j: int| i < j < results.len() ==> (#[trigger] results[j]).0@ != results[i].0@,
    ensures
        shows_read(
            by_host(reports(results))[results[i].0@],
            results[i].0@,
            match results[i].1 {
                Ok(content) => Ok(content@),
                Err(e) => Err(e@),
            },
        ),
        reports(results).len() == results.len(),
        reports(results)[i].0 == results[i].0@,
{
    let all = reports(results);
    assert forall|j: int| i < j < all.len() implies (#[trigger] all[j]).0 != results[i].0@ by {
        assert(results[j].0@ != results[i].0@);
    }
    the_last_outcome_counts(all, results[i].0@, i);
}

/// The aggregate of a whole read holds for each host what came of its own script.
pub proof fn every_reply_is_reported_for_its_host(
    outcomes: Seq<(String, Option<Result<HostResult, Error>>)>,
    i: int,
)
    requires
        0 <= i < outcomes.len(),
        forall|j: int| i < j < outcomes.len() ==> (#[trigger] outcomes[j]).0@ != outcomes[i].0@,
    ensures
        shows_read(
            by_host(replies(outcomes))[outcomes[i].0@],
            outcomes[i].0@,
            read_of(outcomes[i].0@, outcomes[i].1),
        ),
        replies(outcomes).len() == outcomes.len(),
        replies(outcomes)[i].0 == outcomes[i].0@,
{
    let all = replies(outcomes);
    assert forall|j: int| i < j < all.len() implies (#[trigger] all[j]).0 != outcomes[i].0@ by {
        assert(outcomes[j].0@ != outcomes[i].0@);
    }
    the_last_outcome_counts(all, outcomes[i].0@, i);
}

/// An outcome, and what a read brought, show all that they hold.
pub proof fn reads_show_what_they_hold(r: ReadHostResult, content: Vec<u8>, e: Error)
    ensures
        r.deep_view().host == r.host@,
        r.deep_view().success == r.success,
        r.deep_view().content == r.content@,
        match r.error {
            Some(x) => r.deep_view().error == Some(x@),
            None => r.deep_view().error is None,
        },
        read_held(Ok(content)) == Ok::<Seq<u8>, ErrorView>(content@),
        read_held(Err(e)) == Err::<Seq<u8>, ErrorView>(e@),
{
}

/// A read succeeded exactly on the hosts whose outcome says so, and the failed hosts
/// are those that the other outcomes name.
pub proof fn reads_fail_as_their_outcomes_say(entries: Seq<(Seq<char>, ReadView)>, h: Seq<char>)
    ensures
        all_succeeded::<ReadHostResult>(entries) <==> forall|i: int|
            0 <= i < entries.len() ==> (#[trigger] entries[i]).1.success,
        failures::<ReadHostResult>(entries).contains(h) <==> exists|i: int|
            0 <= i < entries.len() && !(#[trigger] entries[i]).1.success && entries[i].1.host == h,
{
    failures_are_the_hosts_that_failed::<ReadHostResult>(entries, h);
    assert forall|v: ReadView| #[trigger] ReadHostResult::succeeded(v) == v.success by {}
    assert forall|v: ReadView| #[trigger] ReadHostResult::about(v) == v.host by {}
    if all_succeeded::<ReadHostResult>(entries) {
        assert forall|i: int| 0 <= i < entries.len() implies (#[trigger] entries[i]).1.success by {
            assert(ReadHostResult::succeeded(entries[i].1));
        }
    }
}

} // verus!
