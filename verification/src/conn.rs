//! Connection settings shared by every remote operation: how to open an ssh
//! session and how to wrap commands (sudo) for a given [`Config`].

use crate::config::{Config, HostKeyChecking, Timeout};
use crate::text::views;
use vstd::prelude::*;

verus! {

/// The part of a [`Config`] that concerns connections.
#[derive(Debug, Clone)]
pub struct Conn {
    pub user: Option<String>,
    pub port: Option<u16>,
    pub identity: Option<String>,
    pub connect_timeout: Option<Timeout>,
    pub sudo: bool,
    pub host_key_checking: HostKeyChecking,
    pub known_hosts_file: Option<String>,
}

/// One thing to set before a session is opened.
#[derive(Debug, Clone)]
pub enum Setting {
    /// What to do about the host's key.
    HostKeys(HostKeyChecking),
    /// The file of known host keys.
    KnownHostsFile(String),
    /// The user to log in as.
    User(String),
    /// The port to connect to.
    Port(u16),
    /// The private key to log in with.
    Identity(String),
    /// How long to wait for the connection.
    ConnectTimeout(Timeout),
}

/// Whether `c` holds the connection settings of `cfg`.
pub open spec fn connects_as(c: Conn, cfg: Config) -> bool {
    &&& c.user == cfg.user
    &&& c.port == cfg.port
    &&& c.identity == cfg.identity
    &&& c.connect_timeout == cfg.connect_timeout
    &&& c.sudo == cfg.sudo
    &&& c.host_key_checking == cfg.host_key_checking
    &&& c.known_hosts_file == cfg.known_hosts_file
}

/// The settings of `c`: the policy for host keys always, the others where they
/// are given.
pub open spec fn settings_of(c: Conn) -> Seq<Setting> {
    seq![Setting::HostKeys(c.host_key_checking)] + (match c.known_hosts_file {
        Some(f) => seq![Setting::KnownHostsFile(f)],
        None => seq![],
    }) + (match c.user {
        Some(u) => seq![Setting::User(u)],
        None => seq![],
    }) + (match c.port {
        Some(p) => seq![Setting::Port(p)],
        None => seq![],
    }) + (match c.identity {
        Some(k) => seq![Setting::Identity(k)],
        None => seq![],
    }) + (match c.connect_timeout {
        Some(t) => seq![Setting::ConnectTimeout(t)],
        None => seq![],
    })
}

/// The program and the arguments that run `script` in a shell.
pub open spec fn argv_of(sudo: bool, script: Seq<char>) -> (Seq<char>, Seq<Seq<char>>) {
    if sudo {
        ("sudo"@, seq!["-n"@, "sh"@, "-c"@, script])
    } else {
        ("sh"@, seq!["-c"@, script])
    }
}

/// With sudo a script runs through `sudo -n`, in the same shell with the same
/// arguments as without.
pub proof fn sudo_wraps_the_same_shell(script: Seq<char>)
    ensures
        argv_of(true, script).0 == "sudo"@,
        argv_of(true, script).1 == seq!["-n"@, argv_of(false, script).0] + argv_of(
            false,
            script,
        ).1,
{
    assert(argv_of(true, script).1 =~= seq!["-n"@, argv_of(false, script).0] + argv_of(
        false,
        script,
    ).1);
}

impl Conn {
    /// The connection settings of `cfg`.
    pub fn from_config(cfg: &Config) -> (r: Self)
        ensures
            connects_as(r, *cfg),
    {
        Conn {
            user: cfg.user.clone(),
            port: cfg.port,
            identity: cfg.identity.clone(),
            connect_timeout: cfg.connect_timeout,
            sudo: cfg.sudo,
            host_key_checking: cfg.host_key_checking,
            known_hosts_file: cfg.known_hosts_file.clone(),
        }
    }

    /// What to set before a session is opened.
    pub fn settings(&self) -> (r: Vec<Setting>)
        ensures
            r@ == settings_of(*self),
    {
        let mut r: Vec<Setting> = Vec::new();
        r.push(Setting::HostKeys(self.host_key_checking));
        if let Some(f) = &self.known_hosts_file {
            r.push(Setting::KnownHostsFile(f.clone()));
        }
        if let Some(u) = &self.user {
            r.push(Setting::User(u.clone()));
        }
        if let Some(p) = self.port {
            r.push(Setting::Port(p));
        }
        if let Some(k) = &self.identity {
            r.push(Setting::Identity(k.clone()));
        }
        if let Some(t) = self.connect_timeout {
            r.push(Setting::ConnectTimeout(t));
        }
        assert(r@ =~= settings_of(*self));
        r
    }

    /// Program and arguments to run a shell `script`, honoring sudo.
    pub fn shell_argv(&self, script: &str) -> (r: (&'static str, Vec<String>))
        ensures
            r.0@ == argv_of(self.sudo, script@).0,
            views(r.1@) == argv_of(self.sudo, script@).1,
    {
        let mut args: Vec<String> = Vec::new();
        if self.sudo {
            args.push("-n".to_owned());
            args.push("sh".to_owned());
        }
        args.push("-c".to_owned());
        args.push(script.to_owned());
        assert(views(args@) =~= argv_of(self.sudo, script@).1);
        if self.sudo {
            ("sudo", args)
        } else {
            ("sh", args)
        }
    }
}

/// Whether the configuration asks for the setting `x`.
pub open spec fn is_asked_for(cfg: Config, x: Setting) -> bool {
    match x {
        Setting::HostKeys(k) => cfg.host_key_checking == k,
        Setting::KnownHostsFile(f) => cfg.known_hosts_file == Some(f),
        Setting::User(u) => cfg.user == Some(u),
        Setting::Port(p) => cfg.port == Some(p),
        Setting::Identity(k) => cfg.identity == Some(k),
        Setting::ConnectTimeout(t) => cfg.connect_timeout == Some(t),
    }
}

/// 1 where there is a value, 0 where there is none.
pub open spec fn one_if_given<T>(x: Option<T>) -> nat {
    if x is Some {
        1
    } else {
        0
    }
}

proof fn lemma_either(a: Seq<Setting>, b: Seq<Setting>, x: Setting)
    ensures
        (a + b).contains(x) <==> a.contains(x) || b.contains(x),
{
    if a.contains(x) {
        let i: int = choose|i: int| 0 <= i < a.len() && a[i] == x;
        assert((a + b)[i] == x);
    }
    if b.contains(x) {
        let i: int = choose|i: int| 0 <= i < b.len() && b[i] == x;
        assert((a + b)[a.len() + i] == x);
    }
    if (a + b).contains(x) {
        let i: int = choose|i: int| 0 <= i < (a + b).len() && (a + b)[i] == x;
        if i < a.len() {
            assert(a[i] == x);
        } else {
            assert(b[i - a.len()] == x);
        }
    }
}

proof fn lemma_only(x: Setting, y: Setting)
    ensures
        seq![y].contains(x) <==> x == y,
        !Seq::<Setting>::empty().contains(x),
{
    assert(seq![y][0] == y);
}

/// A session is opened with exactly the settings that the configuration gives: the
/// policy for host keys always, each other one where it is given, and none twice.
/// Commands run with sudo where the configuration says so.
pub proof fn the_settings_are_those_of_the_config(c: Conn, cfg: Config, x: Setting)
    requires
        connects_as(c, cfg),
    ensures
        settings_of(c).contains(x) <==> is_asked_for(cfg, x),
        settings_of(c).len() == 1 + one_if_given(cfg.known_hosts_file) + one_if_given(cfg.user)
            + one_if_given(cfg.port) + one_if_given(cfg.identity) + one_if_given(
            cfg.connect_timeout,
        ),
        c.sudo == cfg.sudo,
{
    let keys = seq![Setting::HostKeys(c.host_key_checking)];
    let file = match c.known_hosts_file {
        Some(f) => seq![Setting::KnownHostsFile(f)],
        None => seq![],
    };
    let user = match c.user {
        Some(u) => seq![Setting::User(u)],
        None => seq![],
    };
    let port = match c.port {
        Some(p) => seq![Setting::Port(p)],
        None => seq![],
    };
    let identity = match c.identity {
        Some(k) => seq![Setting::Identity(k)],
        None => seq![],
    };
    let limit = match c.connect_timeout {
        Some(t) => seq![Setting::ConnectTimeout(t)],
        None => seq![],
    };
    assert(settings_of(c) == keys + file + user + port + identity + limit);
    lemma_either(keys, file, x);
    lemma_either(keys + file, user, x);
    lemma_either(keys + file + user, port, x);
    lemma_either(keys + file + user + port, identity, x);
    lemma_either(keys + file + user + port + identity, limit, x);
    lemma_only(x, Setting::HostKeys(c.host_key_checking));
    if let Some(f) = c.known_hosts_file {
        lemma_only(x, Setting::KnownHostsFile(f));
    }
    if let Some(u) = c.user {
        lemma_only(x, Setting::User(u));
    }
    if let Some(p) = c.port {
        lemma_only(x, Setting::Port(p));
    }
    if let Some(k) = c.identity {
        lemma_only(x, Setting::Identity(k));
    }
    if let Some(t) = c.connect_timeout {
        lemma_only(x, Setting::ConnectTimeout(t));
    }
}

/// A script runs in `sh -c`, as the one argument after it.
pub proof fn scripts_run_in_a_shell(script: Seq<char>)
    ensures
        argv_of(false, script).0 == "sh"@,
        argv_of(false, script).1 == seq!["-c"@, script],
        argv_of(true, script).0 == "sudo"@,
        argv_of(true, script).1 == seq!["-n"@, "sh"@, "-c"@, script],
{
}

} // verus!
