use dispatch::content::{
    read_all, read_decoded, read_outcome, read_output, read_script, write_outcome, write_script,
};
use dispatch::exec::session_result;
use dispatch::outcome::in_time;
use dispatch::transfer::{
    collect, copy_outcome, fetch_outcome, pull_args, pull_status, push_args, push_status, run_status, run_status_text,
    CopyStep,
};
use dispatch::update::{connect_outcome, update_outcome, UpdateJob, UpdateMove, UpdateStep};
use dispatch::{
    Config, Dispatch, Error, HostResult, ReadResult, Timeout, UpdateHostResult, UpdatePhase,
    UpdateResult,
};

fn client() -> Dispatch {
    Dispatch::new(Config::default(), Ok(None), Ok(None)).unwrap()
}

fn ran(stdout: &str) -> Result<HostResult, Error> {
    Ok(session_result("h", true, Some(0), stdout.as_bytes(), b""))
}

fn broke(stderr: &str) -> Result<HostResult, Error> {
    Ok(session_result("h", false, Some(1), b"", stderr.as_bytes()))
}

// ---------------------------------------------------------------------------
// scp
// ---------------------------------------------------------------------------

#[test]
fn scp_arguments() {
    assert_eq!(
        push_args("h", "./a", "/b", false),
        vec!["-o", "BatchMode=yes", "./a", "h:/b"]
    );
    assert_eq!(
        push_args("u@h", "./a", "/b c", true),
        vec!["-o", "BatchMode=yes", "-r", "./a", "u@h:/b c"]
    );
    assert_eq!(
        pull_args("h", "/x", "logs/h", true),
        vec!["-o", "BatchMode=yes", "-r", "h:/x", "logs/h"]
    );
}

#[test]
fn the_status_of_a_program() {
    assert_eq!(run_status("scp push", true, Some(0), b"warning"), Ok(()));
    assert_eq!(
        run_status("scp push", false, Some(255), b" lost \xff connection\n"),
        Err(Error::Config(
            "scp push failed (exit 255): lost \u{fffd} connection".to_string()
        ))
    );
    assert_eq!(
        run_status_text("scp pull", false, None, ""),
        Err(Error::Config("scp pull failed (exit -1): ".to_string()))
    );
    assert_eq!(push_status(true, Some(0), b""), Ok(()));
    assert_eq!(
        push_status(false, Some(1), b"x\n"),
        Err(Error::Config("scp push failed (exit 1): x".to_string()))
    );
    assert_eq!(pull_status(true, Some(0), b""), Ok(()));
    assert_eq!(
        pull_status(false, None, b"y"),
        Err(Error::Config("scp pull failed (exit -1): y".to_string()))
    );
}

// ---------------------------------------------------------------------------
// Copy and fetch
// ---------------------------------------------------------------------------

#[test]
fn a_copy_makes_the_directory_first() {
    let d = client();
    let plan = d.copy(&["a", "b"], "./f", "/etc/x/f").parallel(2).plan().unwrap();
    assert_eq!((plan.parallel, plan.timeout), (2, Timeout::from_secs(300)));
    assert_eq!(plan.jobs.len(), 2);
    let job = &plan.jobs[1];
    assert_eq!(job.host, "b");
    assert!(matches!(job.start(), CopyStep::MakeParent(s) if s == "mkdir -p '/etc/x'"));
    let push = ["-o", "BatchMode=yes", "-r", "./f", "b:/etc/x/f"];
    assert!(matches!(job.after_mkdir(ran("")), CopyStep::Push(v) if v == push));
    assert!(matches!(job.after_mkdir(broke("no\n")),
        CopyStep::Fail(e) if e == Error::Config("mkdir failed: no".to_string())));
    let lost = Error::Ssh("lost".to_string());
    assert!(matches!(job.after_mkdir(Err(lost.clone())), CopyStep::Fail(e) if e == lost));
}

#[test]
fn a_copy_to_a_bare_name_needs_no_directory() {
    let d = client();
    let plan = d.copy(&["a"], "./f", "f").recursive(false).plan().unwrap();
    let push = ["-o", "BatchMode=yes", "./f", "a:f"];
    assert!(matches!(plan.jobs[0].start(), CopyStep::Push(v) if v == push));
    assert_eq!(plan.parallel, 10);
    let none: [&str; 0] = [];
    assert_eq!(d.copy(&none, "a", "b").plan().unwrap_err(), Error::NoHosts);
}

#[test]
fn each_fetch_has_its_own_directory() {
    let d = client();
    let plan = d.fetch(&["a", "b", "a"], "/var/log/x", "./logs").parallel(0).plan().unwrap();
    assert_eq!((plan.parallel, plan.timeout), (1, Timeout::from_secs(300)));
    assert_eq!(plan.jobs.len(), 2);
    assert_eq!(plan.jobs[0].dest_dir, "./logs/a");
    assert_eq!(plan.jobs[1].dest_dir, "./logs/b");
    assert_eq!(
        plan.jobs[1].args,
        vec!["-o", "BatchMode=yes", "-r", "b:/var/log/x", "./logs/b"]
    );
    // a host that is an absolute path is the one way to collide
    let plan = d.fetch(&["x", "/d/x"], "/f", "/d").recursive(false).plan().unwrap();
    assert_eq!(plan.jobs[0].dest_dir, plan.jobs[1].dest_dir);
    assert_eq!(plan.jobs[0].args, vec!["-o", "BatchMode=yes", "x:/f", "/d/x"]);
    let none: [&str; 0] = [];
    assert_eq!(d.fetch(&none, "a", "b").plan().unwrap_err(), Error::NoHosts);
}

#[test]
fn transfers_are_collected() {
    let r = collect(vec![
        ("b".to_string(), "/x".to_string(), Ok(())),
        ("a".to_string(), "/y".to_string(), Err(Error::Io("full".to_string()))),
    ]);
    assert_eq!(r.hosts.len(), 2);
    let b = r.hosts.get("b").unwrap();
    assert_eq!((b.host.as_str(), b.success, b.dest.as_str()), ("b", true, "/x"));
    assert_eq!(b.error, None);
    let a = r.hosts.get("a").unwrap();
    assert_eq!(a.error.as_deref(), Some("io error: full"));
    assert_eq!(a.dest, "/y");
    assert!(!r.all_success());
    assert_eq!(r.failed_hosts(), vec!["a"]);
}

// ---------------------------------------------------------------------------
// Update
// ---------------------------------------------------------------------------

const SUM: &str = "ba7816bf8f01cfea414140de5dae2223b00361a396177a9cb410ff61f20015ad";

fn job(backup: bool, mode: Option<u32>) -> UpdateJob {
    let d = client();
    let mut b = d.update(&["h"], "./f", "/e/f").backup(backup);
    if let Some(m) = mode {
        b = b.mode(m);
    }
    let hosts = b.targets().unwrap();
    b.plan(&hosts, b"abc").jobs.remove(0)
}

/// Runs an update against the given replies, and tells the phases, what was done,
/// and the result.
fn run(
    job: &UpdateJob,
    check: Result<HostResult, Error>,
    backup: Result<HostResult, Error>,
    push: Result<(), Error>,
    chmod: Result<HostResult, Error>,
) -> (Vec<UpdatePhase>, Vec<String>, Result<UpdateHostResult, Error>) {
    let mut replies = (Some(check), Some(backup), Some(push), Some(chmod));
    let mut phases: Vec<UpdatePhase> = Vec::new();
    let mut done: Vec<String> = Vec::new();
    let mut m: UpdateMove = job.start();
    loop {
        phases.extend(m.phases);
        m = match m.step {
            UpdateStep::Check(s) => {
                done.push(s);
                job.after_check(replies.0.take().unwrap())
            }
            UpdateStep::Backup(s) => {
                done.push(s);
                job.after_backup(replies.1.take().unwrap())
            }
            UpdateStep::Push(args) => {
                done.push(args.join(" "));
                job.after_push(replies.2.take().unwrap())
            }
            UpdateStep::Chmod(s) => {
                done.push(s);
                job.after_chmod(replies.3.take().unwrap())
            }
            UpdateStep::Finish(r) => return (phases, done, r),
        };
    }
}

#[test]
fn updates_are_planned_with_the_checksum() {
    let j = job(false, None);
    assert_eq!(j.local_sum, SUM);
    assert_eq!(j.size, 3);
    let d = client();
    let b = d.update(&["x", "y"], "./f", "/e/f").parallel(0).mode(0o600);
    let hosts = b.targets().unwrap();
    let p = b.plan_with(&hosts, "00", 7);
    assert_eq!(p.parallel, 1);
    assert_eq!(p.timeout, Timeout::from_secs(300));
    assert_eq!(p.jobs.len(), 2);
    assert_eq!(p.jobs[1].host, "y");
    assert_eq!(p.jobs[1].local_sum, "00");
    assert_eq!((p.jobs[1].size, p.jobs[1].mode, p.jobs[1].backup), (7, Some(0o600), false));
    let b = b.progress(|_host: &str, _phase: UpdatePhase| {});
    assert!(b.progress.is_some());
    assert_eq!(b.mode, Some(0o600));
    let none: [&str; 0] = [];
    assert_eq!(d.update(&none, "a", "b").targets().unwrap_err(), Error::NoHosts);
}

#[test]
fn a_matching_file_is_skipped() {
    let j = job(true, Some(0o644));
    let (phases, done, r) = run(&j, ran(&format!("{}\n", SUM)), broke(""), Ok(()), broke(""));
    assert_eq!(
        phases,
        vec![UpdatePhase::Checking, UpdatePhase::Skipped, UpdatePhase::Done]
    );
    assert_eq!(
        done,
        vec!["if [ -f '/e/f' ]; then sha256sum '/e/f' 2>/dev/null | cut -d' ' -f1; else echo -1; fi"]
    );
    let r = r.unwrap();
    assert_eq!((r.success, r.skipped, r.bytes_copied), (true, true, 0));
    assert_eq!(r.error, None);
}

#[test]
fn another_file_is_backed_up_and_written() {
    let j = job(true, Some(0o644));
    let (phases, done, r) = run(&j, ran("-1\n"), ran(""), Ok(()), ran(""));
    assert_eq!(
        phases,
        vec![
            UpdatePhase::Checking,
            UpdatePhase::BackingUp,
            UpdatePhase::Copying,
            UpdatePhase::Done
        ]
    );
    assert_eq!(done.len(), 4);
    assert_eq!(done[1], "if [ -f '/e/f' ]; then cp '/e/f' '/e/f'.bak; fi");
    assert_eq!(done[2], "-o BatchMode=yes -r ./f h:/e/f");
    assert_eq!(done[3], "chmod 644 '/e/f'");
    let r = r.unwrap();
    assert_eq!((r.success, r.skipped, r.bytes_copied), (true, false, 3));

    let (phases, done, r) = run(&job(false, None), ran("-1"), broke(""), Ok(()), broke(""));
    assert_eq!(
        phases,
        vec![UpdatePhase::Checking, UpdatePhase::Copying, UpdatePhase::Done]
    );
    assert_eq!(done.len(), 2);
    assert!(r.unwrap().success);
}

#[test]
fn a_failed_check_script_does_not_stop_an_update() {
    let (_, done, r) = run(&job(false, None), broke("no sha256sum"), ran(""), Ok(()), ran(""));
    assert_eq!(done.len(), 2);
    assert!(r.unwrap().success);
}

#[test]
fn an_update_stops_at_the_first_error() {
    let j = job(true, Some(0o644));
    let lost = Error::Ssh("lost".to_string());

    let (phases, done, r) = run(&j, Err(lost.clone()), ran(""), Ok(()), ran(""));
    assert_eq!((phases, done.len()), (vec![UpdatePhase::Checking], 1));
    assert_eq!(r.unwrap_err(), lost);

    let (phases, done, r) = run(&j, ran("-1"), broke(" full \n"), Ok(()), ran(""));
    assert_eq!(phases, vec![UpdatePhase::Checking, UpdatePhase::BackingUp]);
    assert_eq!(done.len(), 2);
    assert_eq!(r.unwrap_err(), Error::Config("backup failed: full".to_string()));

    let (_, _, r) = run(&j, ran("-1"), Err(lost.clone()), Ok(()), ran(""));
    assert_eq!(r.unwrap_err(), lost);

    let (phases, done, r) = run(&j, ran("-1"), ran(""), Err(lost.clone()), ran(""));
    assert_eq!(phases.last(), Some(&UpdatePhase::Copying));
    assert_eq!(done.len(), 3);
    assert_eq!(r.unwrap_err(), lost);

    let (phases, done, r) = run(&j, ran("-1"), ran(""), Ok(()), broke("denied"));
    assert_eq!(phases.last(), Some(&UpdatePhase::Copying));
    assert_eq!(done.len(), 4);
    assert_eq!(r.unwrap_err(), Error::Config("chmod failed: denied".to_string()));

    let (_, _, r) = run(&j, ran("-1"), ran(""), Ok(()), Err(lost.clone()));
    assert_eq!(r.unwrap_err(), lost);
}

#[test]
fn updates_are_collected() {
    let skipped = run(&job(false, None), ran(SUM), ran(""), Ok(()), ran("")).2;
    let written = run(&job(false, None), ran("-1"), ran(""), Ok(()), ran("")).2;
    let r = UpdateResult::collect(vec![
        ("x".to_string(), written),
        ("h".to_string(), skipped),
        ("a".to_string(), Err(Error::Config("bad".to_string()))),
    ]);
    assert_eq!(r.hosts.len(), 3);
    assert!(!r.all_success());
    assert_eq!(r.failed_hosts(), vec!["a"]);
    assert_eq!(r.skipped_hosts(), vec!["h"]);
    for i in 0..r.hosts.len() {
        assert_eq!(r.hosts.value(i).success, r.hosts.value(i).error.is_none());
    }
    let a = r.hosts.get("a").unwrap();
    assert_eq!((a.success, a.skipped, a.bytes_copied), (false, false, 0));
    assert_eq!(a.error.as_deref(), Some("config error: bad"));
}

// ---------------------------------------------------------------------------
// Write and read
// ---------------------------------------------------------------------------

#[test]
fn write_scripts() {
    assert_eq!(
        write_script("YQ==", "/a b/c", Some(0o600)),
        "mkdir -p '/a b' && printf %s 'YQ==' | base64 -d > '/a b/c' && chmod 600 '/a b/c'"
    );
    assert_eq!(
        write_script("", "it's", None),
        r"printf %s '' | base64 -d > 'it'\''s'"
    );
}

#[test]
fn a_write_is_planned() {
    let d = client();
    let p = d
        .write(&["a", "b"], b"\x00\xffhi".to_vec(), "/f")
        .mode(0o644)
        .parallel(0)
        .plan()
        .unwrap();
    assert_eq!(p.hosts, vec!["a", "b"]);
    assert_eq!(
        p.script,
        "mkdir -p '/' && printf %s 'AP9oaQ==' | base64 -d > '/f' && chmod 644 '/f'"
    );
    assert_eq!(p.dest, "/f");
    assert_eq!((p.parallel, p.timeout), (1, Timeout::from_secs(300)));
    let none: [&str; 0] = [];
    assert_eq!(
        d.write(&none, vec![], "/f").plan().unwrap_err(),
        Error::NoHosts
    );
}

#[test]
fn what_comes_of_a_write() {
    assert_eq!(write_outcome("h", Some(ran(""))), Ok(()));
    assert_eq!(
        write_outcome("h", Some(broke("\tread-only\n"))),
        Err(Error::Config("write failed: read-only".to_string()))
    );
    assert_eq!(
        write_outcome("h", None),
        Err(Error::Config("write to h timed out".to_string()))
    );
    let lost = Error::Ssh("lost".to_string());
    assert_eq!(write_outcome("h", Some(Err(lost.clone()))), Err(lost));
}

#[test]
fn a_read_is_planned() {
    let d = client();
    let p = d.read(&["a"], "/e/it's").parallel(4).plan().unwrap();
    assert_eq!(p.script, r"base64 '/e/it'\''s'");
    assert_eq!(p.hosts, vec!["a"]);
    assert_eq!((p.parallel, p.timeout), (4, Timeout::from_secs(300)));
    assert_eq!(read_script("f"), "base64 'f'");
    let none: [&str; 0] = [];
    assert_eq!(d.read(&none, "f").plan().unwrap_err(), Error::NoHosts);
}

#[test]
fn what_comes_of_a_read() {
    // line breaks do not count
    assert_eq!(read_outcome("h", Some(ran("aGVs\nbG8=\r\n"))), Ok(b"hello".to_vec()));
    assert_eq!(read_outcome("h", Some(ran(""))), Ok(Vec::new()));
    assert_eq!(
        read_outcome("h", Some(ran("a?=="))),
        Err(Error::Config(
            "invalid base64 from h: Invalid symbol 63, offset 1.".to_string()
        ))
    );
    assert_eq!(
        read_outcome("h", Some(broke("no such file\n"))),
        Err(Error::Config("read failed: no such file".to_string()))
    );
    assert_eq!(
        read_outcome("h", None),
        Err(Error::Config("read from h timed out".to_string()))
    );
    let lost = Error::Io("lost".to_string());
    assert_eq!(read_outcome("h", Some(Err(lost.clone()))), Err(lost));
    assert_eq!(read_output("h", Some(ran("x"))), Ok("x".to_string()));
    assert_eq!(
        read_decoded("h", Err("why".to_string())),
        Err(Error::Config("invalid base64 from h: why".to_string()))
    );
    assert_eq!(read_decoded("h", Ok(vec![1])), Ok(vec![1]));
}

#[test]
fn what_is_written_is_read_back() {
    let d = client();
    let mut content: Vec<u8> = Vec::new();
    for n in 0..600u32 {
        content.push((n * 7 % 256) as u8);
        let p = d.write(&["h"], content.clone(), "f").plan().unwrap();
        let payload = p.script.strip_prefix("printf %s '").unwrap();
        let payload = payload.strip_suffix("' | base64 -d > 'f'").unwrap();
        // as a `base64` prints it, in lines of 76 characters
        let mut printed = String::new();
        for (i, c) in payload.chars().enumerate() {
            if i > 0 && i % 76 == 0 {
                printed.push('\n');
            }
            printed.push(c);
        }
        printed.push('\n');
        assert_eq!(read_outcome("h", Some(ran(&printed))).unwrap(), content);
    }
}

#[test]
fn reads_are_collected() {
    let r = ReadResult::collect(vec![
        ("b".to_string(), Ok(vec![1, 2])),
        ("a".to_string(), Err(Error::NoHosts)),
    ]);
    assert!(!r.all_success());
    assert_eq!(r.failed_hosts(), vec!["a"]);
    let b = r.hosts.get("b").unwrap();
    assert_eq!((b.success, b.content.as_slice()), (true, &[1u8, 2][..]));
    let a = r.hosts.get("a").unwrap();
    assert!(a.content.is_empty());
    assert_eq!(a.error.as_deref(), Some("no hosts matched the given patterns"));
}

#[test]
fn every_host_reads_what_was_written() {
    let content = b"\x00\xff any bytes \n";
    let d = client();
    let p = d.write(&["a", "b"], content.to_vec(), "f").plan().unwrap();
    let payload = p.script.strip_prefix("printf %s '").unwrap();
    let payload = payload.strip_suffix("' | base64 -d > 'f'").unwrap();
    let r = read_all(vec![
        ("c".to_string(), None),
        ("a".to_string(), Some(ran(payload))),
        ("d".to_string(), Some(Err(Error::Ssh("lost".to_string())))),
        ("b".to_string(), Some(ran(&format!(" {}\n", payload)))),
        ("e".to_string(), Some(broke("no such file"))),
    ]);
    assert_eq!(r.hosts.len(), 5);
    for host in ["a", "b"] {
        let v = r.hosts.get(host).unwrap();
        assert_eq!((v.success, v.content.as_slice()), (true, &content[..]));
        assert_eq!(v.error, None);
    }
    for (host, error) in [
        ("c", "config error: read from c timed out"),
        ("d", "ssh error: lost"),
        ("e", "config error: read failed: no such file"),
    ] {
        let v = r.hosts.get(host).unwrap();
        assert!(!v.success && v.content.is_empty());
        assert_eq!(v.error.as_deref(), Some(error));
    }
    assert_eq!(r.failed_hosts(), vec!["c", "d", "e"]);
    assert_eq!(read_all(vec![]).hosts.len(), 0);
}

#[test]
fn what_is_late_is_an_error() {
    let late = |what: &str| Error::Config(format!("{} h timed out", what));
    assert_eq!(in_time("reach ", "h", Some(Ok(7u8))), Ok(7));
    assert_eq!(in_time::<u8>("reach ", "h", None), Err(late("reach")));
    assert_eq!(connect_outcome::<u8>("h", None), Err(late("connect to")));
    assert_eq!(connect_outcome("h", Some(Ok(7u8))), Ok(7));
    assert_eq!(copy_outcome("h", None), Err(late("copy to")));
    assert_eq!(copy_outcome("h", Some(Ok(()))), Ok(()));
    assert_eq!(fetch_outcome("h", None), Err(late("fetch from")));
    let lost = Error::Ssh("lost".to_string());
    assert_eq!(fetch_outcome("h", Some(Err(lost.clone()))), Err(lost.clone()));
    assert_eq!(update_outcome("h", None).unwrap_err(), late("update of"));
    assert_eq!(update_outcome("h", Some(Err(lost.clone()))).unwrap_err(), lost);
    let done = run(&job(false, None), ran("-1"), ran(""), Ok(()), ran("")).2;
    assert_eq!(update_outcome("h", Some(done)).unwrap().bytes_copied, 3);
}
