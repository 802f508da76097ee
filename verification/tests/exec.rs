use dispatch::config::HostKeyChecking;
use dispatch::conn::{Conn, Setting};
use dispatch::exec::{
    build_script, kept_result, pump_read, run_one_result, session_command, session_result, timed_result,
};
use dispatch::inventory::GroupDef;
use dispatch::ordered::OrderedMap;
use dispatch::{Config, Dispatch, Error, ExecResult, HostResult, StreamType, Timeout};

fn client() -> Dispatch {
    let groups = vec![(
        "web".to_string(),
        GroupDef::List(vec!["w2".to_string(), "w1".to_string()]),
    )];
    Dispatch::new(Config::default(), Ok(None), Ok(Some(groups))).unwrap()
}

#[test]
fn defaults() {
    let c = Config::default();
    assert_eq!(c.parallel, 10);
    assert_eq!(c.timeout, Timeout::from_secs(300));
    assert_eq!(c.host_key_checking, HostKeyChecking::AcceptNew);
    assert!(!c.sudo);
    assert!(c.config_path.is_none() && c.ssh_config_path.is_none());
    assert!(c.user.is_none() && c.port.is_none() && c.identity.is_none());
    assert!(c.connect_timeout.is_none() && c.known_hosts_file.is_none());
}

#[test]
fn scripts_change_directory_and_export() {
    let mut env: OrderedMap<String> = OrderedMap::new();
    assert_eq!(build_script("ls", &env, &None), "ls");
    env.insert("B".to_string(), "it's".to_string());
    env.insert("A".to_string(), "1 2".to_string());
    assert_eq!(
        build_script("run", &env, &Some("/my dir".to_string())),
        r"cd '/my dir' && export A='1 2'; export B='it'\''s'; run"
    );
}

#[test]
fn an_exec_is_planned() {
    let d = client();
    let b = d.exec(&["web", "db", "w1"], "uptime");
    let p = b.plan().unwrap();
    assert_eq!(p.hosts, vec!["w2", "w1", "db"]);
    assert_eq!(p.script, "uptime");
    assert_eq!(p.input, None);
    assert!(!p.streaming);
    assert_eq!(p.timeout, Timeout::from_secs(300));
    assert_eq!(p.parallel, 10);

    let b = b
        .parallel(0)
        .timeout(Timeout::from_secs(5))
        .env("K", "v")
        .env("K", "w")
        .dir("/tmp")
        .input("in\n");
    let p = b.plan().unwrap();
    assert_eq!(p.parallel, 1);
    assert_eq!(p.timeout, Timeout::from_secs(5));
    assert_eq!(p.script, "cd '/tmp' && export K='w'; uptime");
    assert_eq!(p.input.as_deref(), Some("in\n"));

    let none: [&str; 0] = [];
    assert_eq!(d.exec(&none, "uptime").plan().unwrap_err(), Error::NoHosts);
}

#[test]
fn a_stream_keeps_the_other_options() {
    let d = client();
    let b = d.exec(&["db"], "ls").parallel(3).dir("/x");
    let b = b.stream(|_host: &str, _ty: StreamType, _chunk: &[u8]| {});
    assert!(b.stream.is_some());
    assert!(b.plan().unwrap().streaming);
    let p = b.plan().unwrap();
    assert_eq!(p.parallel, 3);
    assert_eq!(p.script, "cd '/x' && ls");
}

#[test]
fn commands_run_in_a_shell_with_or_without_sudo() {
    let mut cfg = Config::default();
    let conn = Conn::from_config(&cfg);
    let c = session_command(&conn, "ls -l", &None);
    assert_eq!(c.program, "sh");
    assert_eq!(c.args, vec!["-c", "ls -l"]);
    assert!(!c.piped_stdin);

    cfg.sudo = true;
    let conn = Conn::from_config(&cfg);
    let c = session_command(&conn, "ls -l", &Some("x".to_string()));
    assert_eq!(c.program, "sudo");
    assert_eq!(c.args, vec!["-n", "sh", "-c", "ls -l"]);
    assert!(c.piped_stdin);
    assert_eq!(conn.shell_argv("id").1, vec!["-n", "sh", "-c", "id"]);
}

#[test]
fn settings_follow_the_config() {
    let conn = Conn::from_config(&Config::default());
    let s = conn.settings();
    assert_eq!(s.len(), 1);
    assert!(matches!(s[0], Setting::HostKeys(HostKeyChecking::AcceptNew)));

    let cfg = Config {
        user: Some("root".to_string()),
        port: Some(2222),
        identity: Some("/k".to_string()),
        connect_timeout: Some(Timeout::from_secs(7)),
        host_key_checking: HostKeyChecking::AcceptAny,
        known_hosts_file: Some("/dev/null".to_string()),
        ..Default::default()
    };
    let s = Conn::from_config(&cfg).settings();
    assert_eq!(s.len(), 6);
    assert!(matches!(s[0], Setting::HostKeys(HostKeyChecking::AcceptAny)));
    assert!(matches!(&s[1], Setting::KnownHostsFile(f) if f == "/dev/null"));
    assert!(matches!(&s[2], Setting::User(u) if u == "root"));
    assert!(matches!(s[3], Setting::Port(2222)));
    assert!(matches!(&s[4], Setting::Identity(k) if k == "/k"));
    assert!(matches!(s[5], Setting::ConnectTimeout(t) if t == Timeout::from_secs(7)));
}

#[test]
fn output_is_kept_chunk_by_chunk() {
    let mut acc: Vec<u8> = Vec::new();
    let buf = *b"hello world";
    assert_eq!(pump_read(&mut acc, &buf, Some(5)), Some(&b"hello"[..]));
    assert_eq!(pump_read(&mut acc, &buf, Some(11)), Some(&b"hello world"[..]));
    assert_eq!(acc, b"hellohello world");
    // the end of the output, and a failed read
    assert_eq!(pump_read(&mut acc, &buf, Some(0)), None);
    assert_eq!(pump_read(&mut acc, &buf, None), None);
    assert_eq!(acc, b"hellohello world");
}

#[test]
fn a_finished_command_is_reported() {
    let r = session_result("h", true, Some(0), b"ok\n", b"");
    assert_eq!(r.host, "h");
    assert!(r.success);
    assert_eq!(r.exit_code, 0);
    assert_eq!(r.stdout, "ok\n");
    assert_eq!(r.stderr, "");
    assert_eq!(r.error, None);

    // no exit code, and bytes that are not UTF-8
    let r = session_result("h", false, None, b"a\xffb", "é".as_bytes());
    assert_eq!(r.exit_code, -1);
    assert!(!r.success);
    assert_eq!(r.stdout, "a\u{fffd}b");
    assert_eq!(r.stderr, "é");
}

#[test]
fn a_timeout_is_reported_with_its_span() {
    let late = run_one_result("h", None, &Timeout::from_secs(30), false, b"", b"").unwrap();
    assert_eq!(late.error.as_deref(), Some("timed out after 30s"));
    assert!(!late.success);
    assert_eq!(late.exit_code, -1);
    assert_eq!((late.stdout.as_str(), late.stderr.as_str()), ("", ""));

    let half = Timeout::new(1, 500_000_000).unwrap();
    assert_eq!(half.text(), "1.5s");
    assert_eq!(Timeout::new(0, 20_000_000).unwrap().text(), "20ms");
    assert_eq!((half.secs(), half.nanos()), (1, 500_000_000));
    assert!(Timeout::new(1, 1_000_000_000).is_none());
    assert!(Timeout::new(1, 999_999_999).is_some());

    let late = timed_result("h", None, "soon", "a".to_string(), "b".to_string()).unwrap();
    assert_eq!(late.error.as_deref(), Some("timed out after soon"));
    assert_eq!((late.stdout.as_str(), late.stderr.as_str()), ("a", "b"));

    // what finished in time is handed on
    let e = Error::Ssh("refused".to_string());
    let r = run_one_result("h", Some(Err(e.clone())), &half, true, b"a", b"");
    assert_eq!(r.unwrap_err(), e);
    let hr = session_result("h", true, Some(0), b"x", b"");
    assert_eq!(run_one_result("h", Some(Ok(hr)), &half, true, b"a", b"").unwrap().stdout, "x");
}

#[test]
fn what_was_streamed_is_kept_when_time_runs_out() {
    let mut out: Vec<u8> = Vec::new();
    assert_eq!(pump_read(&mut out, b"a", Some(1)), Some(&b"a"[..]));
    let r = run_one_result("h", None, &Timeout::from_secs(1), true, &out, b"").unwrap();
    assert_eq!(r.host, "h");
    assert!(!r.success);
    assert_eq!(r.exit_code, -1);
    assert_eq!(r.error.as_deref(), Some("timed out after 1s"));
    assert_eq!(r.stdout, "a");
    assert_eq!(r.stderr, "");
    let r = run_one_result("h", None, &Timeout::from_secs(1), true, b"", b"\xff").unwrap();
    assert_eq!(r.stderr, "\u{fffd}");
}

#[test]
fn what_was_streamed_is_kept_when_the_connection_is_lost() {
    let lost = Error::Ssh("lost".to_string());
    let r = kept_result("h", Err(lost), true, b"a", b"\xffb");
    assert_eq!((r.host.as_str(), r.success, r.exit_code), ("h", false, -1));
    assert_eq!((r.stdout.as_str(), r.stderr.as_str()), ("a", "\u{fffd}b"));
    assert_eq!(r.error.as_deref(), Some("ssh error: lost"));
    // a host that gave a result keeps it
    let ok = session_result("h", true, Some(0), b"x", b"");
    let r = kept_result("h", Ok(ok), true, b"a", b"");
    assert_eq!((r.stdout.as_str(), r.success), ("x", true));
}

#[test]
fn what_was_not_streamed_is_not_kept() {
    let r = run_one_result("h", None, &Timeout::from_secs(1), false, b"a", b"b").unwrap();
    assert_eq!((r.stdout.as_str(), r.stderr.as_str()), ("", ""));
    assert_eq!(r.error.as_deref(), Some("timed out after 1s"));
    let r = kept_result("h", Err(Error::NoHosts), false, b"a", b"b");
    assert_eq!((r.stdout.as_str(), r.stderr.as_str()), ("", ""));
    assert_eq!((r.success, r.exit_code), (false, -1));
    let ok = session_result("h", true, Some(0), b"x", b"y");
    let r = kept_result("h", Ok(ok), false, b"x", b"y");
    assert_eq!((r.stdout.as_str(), r.stderr.as_str()), ("x", "y"));
}

#[test]
fn what_is_left_of_a_span() {
    let span = |secs: u64, nanos: u32| Timeout::new(secs, nanos).unwrap();
    assert_eq!(span(5, 100).left_after(&span(2, 30)), span(3, 70));
    assert_eq!(span(5, 30).left_after(&span(2, 100)), span(2, 999_999_930));
    assert_eq!(span(5, 30).left_after(&span(5, 30)), span(0, 0));
    assert_eq!(span(5, 30).left_after(&span(5, 31)), span(0, 0));
    assert_eq!(span(5, 30).left_after(&span(6, 0)), span(0, 0));
    assert_eq!(span(u64::MAX, 0).left_after(&span(0, 1)), span(u64::MAX - 1, 999_999_999));
}

#[test]
fn config_files_are_given_or_under_the_home() {
    let c = Config::default();
    assert_eq!(c.ssh_config_file("/home/u"), "/home/u/.ssh/config");
    assert_eq!(c.dispatch_config_file("/home/u"), "/home/u/.dispatch/config.toml");
    assert_eq!(c.ssh_config_file(""), ".ssh/config");
    let c = Config {
        ssh_config_path: Some("a".to_string()),
        config_path: Some("/b".to_string()),
        ..Default::default()
    };
    assert_eq!(c.ssh_config_file("/home/u"), "a");
    assert_eq!(c.dispatch_config_file("/home/u"), "/b");
}

#[test]
fn every_host_is_in_the_result() {
    let ok: HostResult = session_result("b", true, Some(0), b"out", b"");
    let bad = session_result("c", false, Some(3), b"", b"err");
    let r = ExecResult::collect(vec![
        ("c".to_string(), Ok(bad)),
        ("a".to_string(), Err(Error::Ssh("refused".to_string()))),
        ("b".to_string(), Ok(ok)),
    ]);
    assert_eq!(r.hosts.len(), 3);
    assert_eq!(r.hosts.key(0), "a");
    let a = r.hosts.get("a").unwrap();
    assert_eq!(a.error.as_deref(), Some("ssh error: refused"));
    assert_eq!((a.success, a.exit_code), (false, -1));
    assert_eq!(r.hosts.get("b").unwrap().stdout, "out");
    assert_eq!(r.hosts.get("c").unwrap().exit_code, 3);
    assert!(!r.all_success());
    assert_eq!(r.failed_hosts(), vec!["a", "c"]);

    // all succeeded exactly where none failed
    let fine = ExecResult::collect(vec![(
        "b".to_string(),
        Ok(session_result("b", true, Some(0), b"", b"")),
    )]);
    assert!(fine.all_success());
    assert!(fine.failed_hosts().is_empty());
    assert!(ExecResult::collect(vec![]).all_success());
    // of two results for one host the later one counts
    let twice = ExecResult::collect(vec![
        ("h".to_string(), Err(Error::NoHosts)),
        ("h".to_string(), Ok(session_result("h", true, Some(0), b"", b""))),
    ]);
    assert_eq!(twice.hosts.len(), 1);
    assert!(twice.all_success());
}
