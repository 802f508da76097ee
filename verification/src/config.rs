//! Client configuration.

use crate::paths::{default_dispatch_config, default_ssh_config, joined_path};
use vstd::prelude::*;

verus! {

/// A span of time, as whole seconds and the nanoseconds beyond them.
#[derive(Debug, Clone, Copy, PartialEq, Eq)]
pub struct Timeout {
    secs: u64,
    nanos: u32,
}

/// The text in which the standard library shows the duration of `secs` seconds
/// and `nanos` nanoseconds for debugging, such as `1.5s`.
pub uninterp spec fn duration_text(secs: u64, nanos: u32) -> Seq<char>;

/// The `Debug` form of `std::time::Duration`. Its text depends on the seconds
/// and the nanoseconds alone; what it looks like is not stated.
/// `std::time::Duration::new` does not panic where the nanoseconds make up less
/// than one second.
#[verifier::external_body]
fn show_duration(secs: u64, nanos: u32) -> (r: String)
    requires
        nanos < 1_000_000_000,
    ensures
        r@ == duration_text(secs, nanos),
{
    format!("{:?}", std::time::Duration::new(secs, nanos))
}

impl Timeout {
    /// The whole seconds.
    pub closed spec fn secs_view(self) -> u64 {
        self.secs
    }

    /// The nanoseconds beyond the whole seconds.
    pub closed spec fn nanos_view(self) -> u32 {
        self.nanos
    }

    /// The whole span in nanoseconds.
    pub open spec fn total(self) -> nat {
        (self.secs_view() * 1_000_000_000 + self.nanos_view()) as nat
    }

    #[verifier::type_invariant]
    spec fn below_one_second(self) -> bool {
        self.nanos < 1_000_000_000
    }

    /// `secs` whole seconds.
    pub fn from_secs(secs: u64) -> (r: Self)
        ensures
            r.secs_view() == secs,
            r.nanos_view() == 0,
    {
        Timeout { secs, nanos: 0 }
    }

    /// `secs` seconds and `nanos` nanoseconds, where these are less than a second.
    pub fn new(secs: u64, nanos: u32) -> (r: Option<Self>)
        ensures
            match r {
                Some(t) => nanos < 1_000_000_000 && t.secs_view() == secs && t.nanos_view()
                    == nanos,
                None => nanos >= 1_000_000_000,
            },
    {
        if nanos < 1_000_000_000 {
            Some(Timeout { secs, nanos })
        } else {
            None
        }
    }

    /// The whole seconds.
    pub fn secs(&self) -> (r: u64)
        ensures
            r == self.secs_view(),
    {
        self.secs
    }

    /// The nanoseconds beyond the whole seconds.
    pub fn nanos(&self) -> (r: u32)
        ensures
            r == self.nanos_view(),
            r < 1_000_000_000,
    {
        proof {
            use_type_invariant(self);
        }
        self.nanos
    }

    /// What is left of the span when `elapsed` has passed; nothing where that is
    /// longer.
    pub fn left_after(&self, elapsed: &Timeout) -> (r: Timeout)
        ensures
            r.total() == (if elapsed.total() <= self.total() {
                self.total() - elapsed.total()
            } else {
                0
            }),
    {
        proof {
            use_type_invariant(self);
            use_type_invariant(elapsed);
        }
        if self.secs < elapsed.secs || (self.secs == elapsed.secs && self.nanos < elapsed.nanos) {
            Timeout { secs: 0, nanos: 0 }
        } else if self.nanos < elapsed.nanos {
            Timeout {
                secs: self.secs - elapsed.secs - 1,
                nanos: self.nanos + 1_000_000_000 - elapsed.nanos,
            }
        } else {
            Timeout { secs: self.secs - elapsed.secs, nanos: self.nanos - elapsed.nanos }
        }
    }

    /// The span as text, such as `30s`.
    pub fn text(&self) -> (r: String)
        ensures
            r@ == duration_text(self.secs_view(), self.nanos_view()),
    {
        proof {
            use_type_invariant(self);
        }
        show_duration(self.secs, self.nanos)
    }
}

/// What to do about the key that a host shows, as ssh's `StrictHostKeyChecking`.
#[derive(Debug, Clone, Copy, PartialEq, Eq, Structural)]
pub enum HostKeyChecking {
    /// Accept known keys only.
    Strict,
    /// Accept and keep the key of a host that is not known yet.
    AcceptNew,
    /// Accept every key.
    AcceptAny,
}

/// Client configuration.
///
/// Every field has a default. What is `None` is left to the system ssh and to
/// `~/.ssh/config`.
#[derive(Debug, Clone)]
pub struct Config {
    /// Path to the groups file; `~/.dispatch/config.toml` when `None`. A missing
    /// file means that there are no groups.
    pub config_path: Option<String>,
    /// Path to the ssh config that host aliases are read from; `~/.ssh/config`
    /// when `None`.
    pub ssh_config_path: Option<String>,
    /// How many hosts are operated on at once.
    pub parallel: usize,
    /// How long one operation on one host may take.
    pub timeout: Timeout,
    /// The user to log in as.
    pub user: Option<String>,
    /// The port to connect to.
    pub port: Option<u16>,
    /// Path to the private key to log in with.
    pub identity: Option<String>,
    /// How long to wait for a connection.
    pub connect_timeout: Option<Timeout>,
    /// Whether remote commands run through `sudo -n`.
    pub sudo: bool,
    /// What to do about the key that a host shows.
    pub host_key_checking: HostKeyChecking,
    /// Path to the file of known host keys, such as `/dev/null`.
    pub known_hosts_file: Option<String>,
}

impl Config {
    /// The ssh config to read host aliases from: the one that is given, or the
    /// default one of the user whose home is `home`.
    pub fn ssh_config_file(&self, home: &str) -> (r: String)
        ensures
            r@ == (match self.ssh_config_path {
                Some(path) => path@,
                None => joined_path(joined_path(home@, ".ssh"@), "config"@),
            }),
    {
        match &self.ssh_config_path {
            Some(path) => path.clone(),
            None => default_ssh_config(home),
        }
    }

    /// The dispatch config to read groups from: the one that is given, or the
    /// default one of the user whose home is `home`.
    pub fn dispatch_config_file(&self, home: &str) -> (r: String)
        ensures
            r@ == (match self.config_path {
                Some(path) => path@,
                None => joined_path(joined_path(home@, ".dispatch"@), "config.toml"@),
            }),
    {
        match &self.config_path {
            Some(path) => path.clone(),
            None => default_dispatch_config(home),
        }
    }
}

impl Default for Config {
    fn default() -> (r: Self)
        ensures
            r.config_path is None,
            r.ssh_config_path is None,
            r.parallel == 10,
            r.timeout.secs_view() == 300,
            r.timeout.nanos_view() == 0,
            r.user is None,
            r.port is None,
            r.identity is None,
            r.connect_timeout is None,
            !r.sudo,
            r.host_key_checking == HostKeyChecking::AcceptNew,
            r.known_hosts_file is None,
    {
        Config {
            config_path: None,
            ssh_config_path: None,
            parallel: 10,
            timeout: Timeout::from_secs(300),
            user: None,
            port: None,
            identity: None,
            connect_timeout: None,
            sudo: false,
            host_key_checking: HostKeyChecking::AcceptNew,
            known_hosts_file: None,
        }
    }
}

/// A second counts as a thousand million nanoseconds.
pub proof fn spans_are_counted_in_nanoseconds(t: Timeout)
    ensures
        t.total() == t.secs_view() * 1000 * 1000 * 1000 + t.nanos_view(),
{
}

} // verus!
