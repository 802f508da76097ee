//! The client: configuration, inventory and the operations on offer.

use crate::config::Config;
use crate::conn::{connects_as, Conn};
use crate::content::{ReadBuilder, WriteBuilder};
use crate::error::Error;
use crate::exec::{ExecBuilder, Silent};
use crate::inventory::{config_hosts, group_map, resolution, GroupDef, Inventory};
use crate::text::views;
use crate::transfer::{CopyBuilder, FetchBuilder};
use crate::update::UpdateBuilder;
use vstd::prelude::*;

verus! {

/// The dispatch client: holds configuration and the resolved inventory.
pub struct Dispatch {
    pub config: Config,
    pub inventory: Inventory,
    pub conn: Conn,
}

/// What the strings of `v` hold.
pub open spec fn str_views(v: Seq<&str>) -> Seq<Seq<char>> {
    v.map_values(|s: &str| s@)
}

/// The patterns as strings of their own.
fn collect(patterns: &[&str]) -> (r: Vec<String>)
    ensures
        views(r@) == str_views(patterns@),
{
    let mut r: Vec<String> = Vec::new();
    let mut i: usize = 0;
    while i < patterns.len()
        invariant
            i <= patterns@.len(),
            r@.len() == i,
            forall|j: int| 0 <= j < i ==> #[trigger] r@[j]@ == patterns@[j]@,
        decreases patterns@.len() - i,
    {
        r.push(patterns[i].to_owned());
        i = i + 1;
    }
    assert(views(r@) =~= str_views(patterns@));
    r
}

impl Dispatch {
    /// Create a client from what came of reading the ssh config (host aliases) and
    /// the dispatch config (groups). Each is its contents, `None` where there is no
    /// such file, or the error.
    pub fn new(
        config: Config,
        ssh_config: Result<Option<String>, Error>,
        dispatch_config: Result<Option<Vec<(String, GroupDef)>>, Error>,
    ) -> (r: Result<Self, Error>)
        ensures
            match (ssh_config, dispatch_config) {
                (Err(e), _) => r == Err::<Self, Error>(e),
                (Ok(_), Err(e)) => r == Err::<Self, Error>(e),
                (Ok(text), Ok(defs)) => {
                    &&& r matches Ok(d)
                    &&& d.config == config
                    &&& connects_as(d.conn, config)
                    &&& d.inventory@.aliases == (match text {
                        Some(t) => config_hosts(t@),
                        None => Seq::empty(),
                    })
                    &&& d.inventory@.groups == (match defs {
                        Some(g) => group_map(g@),
                        None => Map::empty(),
                    })
                },
            },
    {
        match Inventory::load(ssh_config, dispatch_config) {
            Ok(inventory) => Ok(Dispatch::with_inventory(config, inventory)),
            Err(e) => Err(e),
        }
    }

    /// Build directly from a pre-loaded [`Inventory`].
    pub fn with_inventory(config: Config, inventory: Inventory) -> (r: Self)
        ensures
            r.config == config,
            r.inventory == inventory,
            connects_as(r.conn, config),
    {
        let conn: Conn = Conn::from_config(&config);
        Dispatch { config, inventory, conn }
    }

    /// Resolve patterns (aliases, groups, wildcards, IPs) into concrete hosts.
    pub fn resolve(&self, patterns: &[String]) -> (r: Result<Vec<String>, Error>)
        ensures
            match resolution(self.inventory@, views(patterns@)) {
                Ok(hosts) => r matches Ok(v) && views(v@) == hosts,
                Err(e) => r matches Err(x) && x@ == e,
            },
    {
        self.inventory.resolve(patterns)
    }

    /// Access the underlying inventory (e.g. to list known hosts).
    pub fn inventory(&self) -> (r: &Inventory)
        ensures
            *r == self.inventory,
    {
        &self.inventory
    }

    /// Run `command` on every host matched by `patterns`.
    pub fn exec(&self, patterns: &[&str], command: &str) -> (r: ExecBuilder<'_, Silent>)
        ensures
            r.dispatch == self,
            views(r.patterns@) == str_views(patterns@),
            r.command@ == command@,
            r.parallel == self.config.parallel,
            r.timeout == self.config.timeout,
            r.env.entries().len() == 0,
            r.dir is None,
            r.input is None,
            r.stream is None,
    {
        ExecBuilder::new(self, collect(patterns), command.to_owned())
    }

    /// Push a local file/dir to `dest` on each matched host.
    pub fn copy(&self, patterns: &[&str], src: &str, dest: &str) -> (r: CopyBuilder<'_>)
        ensures
            r.dispatch == self,
            views(r.patterns@) == str_views(patterns@),
            r.src@ == src@,
            r.dest@ == dest@,
            r.parallel == self.config.parallel,
            r.timeout == self.config.timeout,
            r.recursive,
    {
        CopyBuilder::new(self, collect(patterns), src.to_owned(), dest.to_owned())
    }

    /// Fetch `src` from each matched host into `dest/<host>/`.
    pub fn fetch(&self, patterns: &[&str], src: &str, dest: &str) -> (r: FetchBuilder<'_>)
        ensures
            r.dispatch == self,
            views(r.patterns@) == str_views(patterns@),
            r.src@ == src@,
            r.dest@ == dest@,
            r.parallel == self.config.parallel,
            r.timeout == self.config.timeout,
            r.recursive,
    {
        FetchBuilder::new(self, collect(patterns), src.to_owned(), dest.to_owned())
    }

    /// Update a remote file from `src`: skips hosts whose file already matches
    /// (sha256), with optional backup and file mode. See [`UpdateBuilder`].
    pub fn update(&self, patterns: &[&str], src: &str, dest: &str) -> (r: UpdateBuilder<
        '_,
        Silent,
    >)
        ensures
            r.dispatch == self,
            views(r.patterns@) == str_views(patterns@),
            r.src@ == src@,
            r.dest@ == dest@,
            r.parallel == self.config.parallel,
            r.timeout == self.config.timeout,
            !r.backup,
            r.mode is None,
            r.progress is None,
    {
        UpdateBuilder::new(self, collect(patterns), src.to_owned(), dest.to_owned())
    }

    /// Write `content` to `dest` on each matched host, creating the directory that
    /// it lies in.
    pub fn write(&self, patterns: &[&str], content: Vec<u8>, dest: &str) -> (r: WriteBuilder<'_>)
        ensures
            r.dispatch == self,
            views(r.patterns@) == str_views(patterns@),
            r.content == content,
            r.dest@ == dest@,
            r.parallel == self.config.parallel,
            r.timeout == self.config.timeout,
            r.mode is None,
    {
        WriteBuilder::new(self, collect(patterns), content, dest.to_owned())
    }

    /// Read the bytes of `path` on each matched host.
    pub fn read(&self, patterns: &[&str], path: &str) -> (r: ReadBuilder<'_>)
        ensures
            r.dispatch == self,
            views(r.patterns@) == str_views(patterns@),
            r.path@ == path@,
            r.parallel == self.config.parallel,
            r.timeout == self.config.timeout,
    {
        ReadBuilder::new(self, collect(patterns), path.to_owned())
    }
}

/// The view of a list of patterns has, at every place, what the pattern there holds.
pub proof fn patterns_are_viewed_in_order(v: Seq<&str>)
    ensures
        str_views(v).len() == v.len(),
        forall|i: int| 0 <= i < v.len() ==> #[trigger] str_views(v)[i] == v[i]@,
{
}

} // verus!
