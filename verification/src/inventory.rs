//! Host resolution: turn user-supplied patterns into a concrete host list.
//!
//! Patterns may be:
//! - a group name defined in `~/.dispatch/config.toml`
//! - a wildcard (`orange*`, `web0?`) matched against `~/.ssh/config` `Host` aliases
//! - a concrete ssh alias or raw IP/hostname (passed through unchanged)

use crate::error::{Error, ErrorView};
use crate::ordered::OrderedMap;
use crate::text::{
    ascii_small, has_char, lines, lines_of, same, same_but_ascii_case, same_ignoring_case,
    strip_prefix, trim, trimmed, trimming_takes_the_white_space_at_the_ends, views, words,
    words_of,
};
use vstd::prelude::*;

verus! {

// ---------------------------------------------------------------------------
// Host lists
// ---------------------------------------------------------------------------

/// `out` with `host` at its end, or `out` itself where it holds `host` already.
pub open spec fn add_host(out: Seq<Seq<char>>, host: Seq<char>) -> Seq<Seq<char>> {
    if out.contains(host) {
        out
    } else {
        out.push(host)
    }
}

/// `out` with each of `hosts` added in turn.
pub open spec fn add_hosts(out: Seq<Seq<char>>, hosts: Seq<Seq<char>>) -> Seq<Seq<char>>
    decreases hosts.len(),
{
    if hosts.len() == 0 {
        out
    } else {
        add_host(add_hosts(out, hosts.drop_last()), hosts.last())
    }
}

/// `hosts` without the repetitions: each host where it occurs first.
pub open spec fn without_repetitions(hosts: Seq<Seq<char>>) -> Seq<Seq<char>> {
    add_hosts(Seq::empty(), hosts)
}

/// Adds `h` to `out`, unless it is there.
pub fn push_unique(out: &mut Vec<String>, h: &str)
    ensures
        views(final(out)@) == add_host(views(old(out)@), h@),
{
    let mut i: usize = 0;
    while i < out.len()
        invariant
            i <= out@.len(),
            out@ == old(out)@,
            forall|j: int| 0 <= j < i ==> #[trigger] views(out@)[j] != h@,
        decreases out@.len() - i,
    {
        assert(views(out@)[i as int] == out@[i as int]@);
        if same(out[i].as_str(), h) {
            return;
        }
        i = i + 1;
    }
    out.push(h.to_owned());
    assert(views(out@) =~= views(old(out)@).push(h@));
}

// ---------------------------------------------------------------------------
// Wildcards
// ---------------------------------------------------------------------------

/// Whether `pat` holds a character that makes it a wildcard.
pub open spec fn has_wildcard(pat: Seq<char>) -> bool {
    pat.contains('*') || pat.contains('?') || pat.contains('[')
}

/// What `glob::Pattern` says of `name`: whether the pattern matches it, or `None`
/// where the pattern is not a valid one.
pub uninterp spec fn glob_match(pattern: Seq<char>, name: Seq<char>) -> Option<bool>;

/// `glob::Pattern::new` compiles the pattern, or refuses it (`None`); then
/// `glob::Pattern::matches` tells whether it matches the whole of `name`. On Unix,
/// where `/` is the only path separator, the result depends on the pattern and the
/// name alone. Which patterns are valid and what they match is not stated.
#[verifier::external_body]
fn glob_test(pattern: &str, name: &str) -> (r: Option<bool>)
    ensures
        r == glob_match(pattern@, name@),
{
    match glob::Pattern::new(pattern) {
        Ok(p) => Some(p.matches(name)),
        Err(_) => None,
    }
}

/// For each alias, whether the wildcard `pat` matches it.
pub open spec fn verdicts_of(pat: Seq<char>, aliases: Seq<Seq<char>>) -> Seq<bool> {
    aliases.map_values(|h: Seq<char>| glob_match(pat, h) == Some(true))
}

/// The aliases that have the verdict `true`, in order.
pub open spec fn chosen(aliases: Seq<Seq<char>>, verdicts: Seq<bool>) -> Seq<Seq<char>>
    decreases aliases.len(),
{
    if aliases.len() == 0 || aliases.len() != verdicts.len() {
        Seq::empty()
    } else {
        let before = chosen(aliases.drop_last(), verdicts.drop_last());
        if verdicts.last() {
            before.push(aliases.last())
        } else {
            before
        }
    }
}

/// For each alias, whether the wildcard `pat` matches it.
fn verdicts(pat: &str, aliases: &Vec<String>) -> (r: Vec<bool>)
    ensures
        r@ == verdicts_of(pat@, views(aliases@)),
{
    let mut r: Vec<bool> = Vec::new();
    let mut i: usize = 0;
    while i < aliases.len()
        invariant
            i <= aliases@.len(),
            r@.len() == i,
            forall|j: int|
                0 <= j < i ==> #[trigger] r@[j] == (glob_match(pat@, aliases@[j]@) == Some(true)),
        decreases aliases@.len() - i,
    {
        let verdict: bool = match glob_test(pat, aliases[i].as_str()) {
            Some(b) => b,
            None => false,
        };
        r.push(verdict);
        i = i + 1;
    }
    assert(r@ =~= verdicts_of(pat@, views(aliases@)));
    r
}

/// Adds to `out` the aliases that have the verdict `true`, and tells whether
/// there was one.
pub fn push_chosen(out: &mut Vec<String>, aliases: &Vec<String>, verdicts: &Vec<bool>) -> (r: bool)
    requires
        aliases@.len() == verdicts@.len(),
    ensures
        views(final(out)@) == add_hosts(views(old(out)@), chosen(views(aliases@), verdicts@)),
        r == (chosen(views(aliases@), verdicts@).len() > 0),
{
    let mut matched: bool = false;
    let mut i: usize = 0;
    let ghost names = views(aliases@);
    assert(chosen(names.take(0), verdicts@.take(0)).len() == 0);
    while i < aliases.len()
        invariant
            i <= aliases@.len(),
            aliases@.len() == verdicts@.len(),
            names == views(aliases@),
            views(out@) == add_hosts(
                views(old(out)@),
                chosen(names.take(i as int), verdicts@.take(i as int)),
            ),
            matched == (chosen(names.take(i as int), verdicts@.take(i as int)).len() > 0),
        decreases aliases@.len() - i,
    {
        proof {
            assert(names.take(i + 1).drop_last() =~= names.take(i as int));
            assert(verdicts@.take(i + 1).drop_last() =~= verdicts@.take(i as int));
            assert(names.take(i + 1).last() == aliases@[i as int]@);
            let before = chosen(names.take(i as int), verdicts@.take(i as int));
            assert(before.push(aliases@[i as int]@).drop_last() =~= before);
        }
        if verdicts[i] {
            push_unique(out, aliases[i].as_str());
            matched = true;
        }
        i = i + 1;
    }
    assert(names.take(names.len() as int) =~= names);
    assert(verdicts@.take(verdicts@.len() as int) =~= verdicts@);
    matched
}

/// The hosts that the wildcard `pat` stands for: the aliases that have the verdict
/// `true`, or the wildcard itself where none has.
pub open spec fn wildcard_hosts(
    pat: Seq<char>,
    aliases: Seq<Seq<char>>,
    verdicts: Seq<bool>,
) -> Seq<Seq<char>> {
    if chosen(aliases, verdicts).len() > 0 {
        chosen(aliases, verdicts)
    } else {
        seq![pat]
    }
}

/// Adds to `out` the hosts that the wildcard `pat` stands for, given for each
/// alias whether the wildcard matches it.
pub fn push_wildcard(
    out: &mut Vec<String>,
    pat: &str,
    aliases: &Vec<String>,
    verdicts: &Vec<bool>,
)
    requires
        aliases@.len() == verdicts@.len(),
    ensures
        views(final(out)@) == add_hosts(
            views(old(out)@),
            wildcard_hosts(pat@, views(aliases@), verdicts@),
        ),
{
    if !push_chosen(out, aliases, verdicts) {
        // nothing matched: treat it literally
        push_unique(out, pat);
        proof {
            lemma_add_one(views(old(out)@), pat@);
        }
    }
}

proof fn lemma_add_one(out: Seq<Seq<char>>, host: Seq<char>)
    ensures
        add_hosts(out, seq![host]) == add_host(out, host),
{
    let one = seq![host];
    assert(one.drop_last() =~= Seq::<Seq<char>>::empty());
    assert(one.last() == host);
    reveal_with_fuel(add_hosts, 2);
}

// ---------------------------------------------------------------------------
// Resolution
// ---------------------------------------------------------------------------

/// What an [`Inventory`] holds.
pub struct InventoryView {
    /// The concrete host aliases of the ssh config.
    pub aliases: Seq<Seq<char>>,
    /// The member patterns of each group.
    pub groups: Map<Seq<char>, Seq<Seq<char>>>,
}

/// How deep groups may be nested.
pub const MAX_DEPTH: usize = 16;

/// How many more levels of groups there is room for at `depth`.
pub open spec fn room(depth: nat) -> nat {
    if depth <= MAX_DEPTH {
        (MAX_DEPTH + 1 - depth) as nat
    } else {
        0
    }
}

/// The error for a pattern that is nested too deep.
pub open spec fn too_deep(pat: Seq<char>) -> ErrorView {
    ErrorView::Config("group recursion too deep at '"@ + pat + "'"@)
}

/// The hosts that the pattern `pat` stands for, with repetitions. A group stands
/// for what its members stand for, a wildcard for the aliases that it matches, and
/// everything else, a wildcard that matches none among it, for itself.
pub open spec fn expand_one(inv: InventoryView, pat: Seq<char>, depth: nat) -> Result<
    Seq<Seq<char>>,
    ErrorView,
>
    decreases room(depth), 0nat,
{
    if depth > MAX_DEPTH {
        Err(too_deep(pat))
    } else if inv.groups.dom().contains(pat) {
        expand_all(inv, inv.groups[pat], depth + 1)
    } else {
        Ok(
            if has_wildcard(pat) {
                wildcard_hosts(pat, inv.aliases, verdicts_of(pat, inv.aliases))
            } else {
                seq![pat]
            },
        )
    }
}

/// The hosts that the patterns `pats` stand for, one after the other.
pub open spec fn expand_all(inv: InventoryView, pats: Seq<Seq<char>>, depth: nat) -> Result<
    Seq<Seq<char>>,
    ErrorView,
>
    decreases room(depth), pats.len(),
{
    if pats.len() == 0 {
        Ok(Seq::empty())
    } else {
        match expand_all(inv, pats.drop_last(), depth) {
            Err(e) => Err(e),
            Ok(before) => match expand_one(inv, pats.last(), depth) {
                Err(e) => Err(e),
                Ok(hosts) => Ok(before + hosts),
            },
        }
    }
}

/// The hosts that the pattern `pat` leads to before the first error: all that it
/// stands for where there is none, and no host where it is nested too deep itself.
pub open spec fn reached_one(inv: InventoryView, pat: Seq<char>, depth: nat) -> Seq<Seq<char>>
    decreases room(depth), 0nat,
{
    if depth > MAX_DEPTH {
        Seq::empty()
    } else if inv.groups.dom().contains(pat) {
        reached_all(inv, inv.groups[pat], depth + 1)
    } else if has_wildcard(pat) {
        wildcard_hosts(pat, inv.aliases, verdicts_of(pat, inv.aliases))
    } else {
        seq![pat]
    }
}

/// The hosts that the patterns `pats` lead to, one after the other, before the
/// first error.
pub open spec fn reached_all(inv: InventoryView, pats: Seq<Seq<char>>, depth: nat) -> Seq<Seq<char>>
    decreases room(depth), pats.len(),
{
    if pats.len() == 0 {
        Seq::empty()
    } else if expand_all(inv, pats.drop_last(), depth) is Err {
        reached_all(inv, pats.drop_last(), depth)
    } else {
        reached_all(inv, pats.drop_last(), depth) + reached_one(inv, pats.last(), depth)
    }
}

/// The hosts that `pats` resolve to: what they stand for, without repetitions.
/// It is an error that they stand for no host.
pub open spec fn resolution(inv: InventoryView, pats: Seq<Seq<char>>) -> Result<
    Seq<Seq<char>>,
    ErrorView,
> {
    match expand_all(inv, pats, 0) {
        Err(e) => Err(e),
        Ok(hosts) => if hosts.len() == 0 {
            Err(ErrorView::NoHosts)
        } else {
            Ok(without_repetitions(hosts))
        },
    }
}

proof fn lemma_add_concat(out: Seq<Seq<char>>, a: Seq<Seq<char>>, b: Seq<Seq<char>>)
    ensures
        add_hosts(out, a + b) == add_hosts(add_hosts(out, a), b),
    decreases b.len(),
{
    if b.len() == 0 {
        assert(a + b =~= a);
    } else {
        assert((a + b).drop_last() =~= a + b.drop_last());
        lemma_add_concat(out, a, b.drop_last());
    }
}

proof fn lemma_add_grows(out: Seq<Seq<char>>, hosts: Seq<Seq<char>>)
    ensures
        out.len() <= add_hosts(out, hosts).len(),
        add_hosts(out, hosts).take(out.len() as int) == out,
        hosts.len() > 0 ==> add_hosts(out, hosts).len() > 0,
    decreases hosts.len(),
{
    if hosts.len() > 0 {
        lemma_add_grows(out, hosts.drop_last());
        let before = add_hosts(out, hosts.drop_last());
        assert(add_host(before, hosts.last()).take(out.len() as int) =~= before.take(
            out.len() as int,
        ));
    } else {
        assert(out.take(out.len() as int) =~= out);
    }
}

/// Resolved view of ssh-config host aliases and dispatch groups.
#[derive(Debug)]
pub struct Inventory {
    /// Concrete host aliases from ssh config (wildcard `Host` lines excluded).
    ssh_hosts: Vec<String>,
    /// Group name -> member patterns (members may themselves be groups/wildcards).
    groups: OrderedMap<Vec<String>>,
}

impl View for Inventory {
    type V = InventoryView;

    closed spec fn view(&self) -> InventoryView {
        InventoryView { aliases: views(self.ssh_hosts@), groups: self.groups.deep_view() }
    }
}

impl Inventory {
    /// The inventory of an ssh config and of the groups of a dispatch config.
    ///
    /// Each argument is what came of reading the file: its contents, `None` where
    /// there is no such file, or the error. Missing files are fine; of two errors
    /// the first is returned.
    pub fn load(
        ssh_config: Result<Option<String>, Error>,
        dispatch_config: Result<Option<Vec<(String, GroupDef)>>, Error>,
    ) -> (r: Result<Self, Error>)
        ensures
            match (ssh_config, dispatch_config) {
                (Err(e), _) => r == Err::<Self, Error>(e),
                (Ok(_), Err(e)) => r == Err::<Self, Error>(e),
                (Ok(text), Ok(defs)) => {
                    &&& r matches Ok(inv)
                    &&& inv@.aliases == (match text {
                        Some(t) => config_hosts(t@),
                        None => Seq::empty(),
                    })
                    &&& inv@.groups == (match defs {
                        Some(d) => group_map(d@),
                        None => Map::empty(),
                    })
                },
            },
    {
        let text: Option<String> = match ssh_config {
            Ok(t) => t,
            Err(e) => return Err(e),
        };
        let defs: Option<Vec<(String, GroupDef)>> = match dispatch_config {
            Ok(d) => d,
            Err(e) => return Err(e),
        };
        let ssh_hosts: Vec<String> = match text {
            Some(t) => parse_ssh_config_hosts(t.as_str()),
            None => Vec::new(),
        };
        let groups: OrderedMap<Vec<String>> = match defs {
            Some(d) => parse_groups(d),
            None => OrderedMap::new(),
        };
        let inv = Inventory { ssh_hosts, groups };
        assert(text is None ==> inv@.aliases =~= Seq::<Seq<char>>::empty());
        Ok(inv)
    }

    /// The ssh-config host aliases discovered (useful for listing/UX).
    pub fn hosts(&self) -> (r: &[String])
        ensures
            views(r@) == self@.aliases,
    {
        self.ssh_hosts.as_slice()
    }

    /// Resolve `patterns` into a deduped, order-preserving host list.
    pub fn resolve(&self, patterns: &[String]) -> (r: Result<Vec<String>, Error>)
        ensures
            match resolution(self@, views(patterns@)) {
                Ok(hosts) => r matches Ok(v) && views(v@) == hosts,
                Err(e) => r matches Err(x) && x@ == e,
            },
    {
        let mut out: Vec<String> = Vec::new();
        assert(views(out@) =~= Seq::<Seq<char>>::empty());
        self.resolve_all(patterns, &mut out, 0)?;
        proof {
            lemma_add_grows(Seq::empty(), expand_all(self@, views(patterns@), 0)->Ok_0);
        }
        if out.is_empty() {
            return Err(Error::NoHosts);
        }
        Ok(out)
    }

    /// Adds to `out` the hosts that `patterns` stand for, up to the first error.
    fn resolve_all(&self, patterns: &[String], out: &mut Vec<String>, depth: usize) -> (r: Result<
        (),
        Error,
    >)
        ensures
            match expand_all(self@, views(patterns@), depth as nat) {
                Ok(hosts) => r is Ok && views(final(out)@) == add_hosts(views(old(out)@), hosts),
                Err(e) => {
                    &&& r matches Err(x)
                    &&& x@ == e
                    &&& views(final(out)@) == add_hosts(
                        views(old(out)@),
                        reached_all(self@, views(patterns@), depth as nat),
                    )
                },
            },
        decreases room(depth as nat), patterns@.len() + 1,
    {
        let mut i: usize = 0;
        let ghost pats = views(patterns@);
        while i < patterns.len()
            invariant
                i <= patterns@.len(),
                pats == views(patterns@),
                expand_all(self@, pats.take(i as int), depth as nat) is Ok,
                views(out@) == add_hosts(
                    views(old(out)@),
                    expand_all(self@, pats.take(i as int), depth as nat)->Ok_0,
                ),
            decreases patterns@.len() - i,
        {
            proof {
                assert(pats.take(i + 1).drop_last() =~= pats.take(i as int));
                assert(pats.take(i + 1).last() == patterns@[i as int]@);
                lemma_expand_prefix(self@, pats, i + 1, depth as nat);
                let before = expand_all(self@, pats.take(i as int), depth as nat)->Ok_0;
                lemma_all_reached(self@, pats.take(i as int), depth as nat);
                match expand_one(self@, patterns@[i as int]@, depth as nat) {
                    Ok(hosts) => lemma_add_concat(views(old(out)@), before, hosts),
                    Err(_) => lemma_add_concat(
                        views(old(out)@),
                        before,
                        reached_one(self@, patterns@[i as int]@, depth as nat),
                    ),
                }
            }
            self.resolve_one(patterns[i].as_str(), out, depth)?;
            i = i + 1;
        }
        assert(pats.take(pats.len() as int) =~= pats);
        Ok(())
    }

    /// Adds to `out` the hosts that `pat` stands for, up to the first error.
    fn resolve_one(&self, pat: &str, out: &mut Vec<String>, depth: usize) -> (r: Result<(), Error>)
        ensures
            match expand_one(self@, pat@, depth as nat) {
                Ok(hosts) => r is Ok && views(final(out)@) == add_hosts(views(old(out)@), hosts),
                Err(e) => {
                    &&& r matches Err(x)
                    &&& x@ == e
                    &&& views(final(out)@) == add_hosts(
                        views(old(out)@),
                        reached_one(self@, pat@, depth as nat),
                    )
                },
            },
        decreases room(depth as nat), 0nat,
    {
        if depth > MAX_DEPTH {
            let text = "group recursion too deep at '".to_owned().concat(pat).concat("'");
            return Err(Error::Config(text));
        }
        // 1. group name
        if let Some(members) = self.groups.get(pat) {
            assert(members.deep_view() =~= views(members@));
            return self.resolve_all(members.as_slice(), out, depth + 1);
        }
        // 2. wildcard against ssh-config aliases
        if has_char(pat, '*') || has_char(pat, '?') || has_char(pat, '[') {
            let found: Vec<bool> = verdicts(pat, &self.ssh_hosts);
            push_wildcard(out, pat, &self.ssh_hosts, &found);
            return Ok(());
        }
        // 3. literal alias / IP / hostname
        push_unique(out, pat);
        proof {
            lemma_add_one(views(old(out)@), pat@);
        }
        Ok(())
    }
}

proof fn lemma_expand_prefix(inv: InventoryView, pats: Seq<Seq<char>>, i: int, depth: nat)
    requires
        0 <= i <= pats.len(),
    ensures
        expand_all(inv, pats.take(i), depth) is Err ==> expand_all(inv, pats, depth) == expand_all(
            inv,
            pats.take(i),
            depth,
        ) && reached_all(inv, pats, depth) == reached_all(inv, pats.take(i), depth),
    decreases pats.len(),
{
    if i < pats.len() {
        lemma_expand_prefix(inv, pats.drop_last(), i, depth);
        assert(pats.drop_last().take(i) =~= pats.take(i));
    } else {
        assert(pats.take(i) =~= pats);
    }
}

/// Patterns without an error lead to all that they stand for.
proof fn lemma_all_reached(inv: InventoryView, pats: Seq<Seq<char>>, depth: nat)
    ensures
        expand_all(inv, pats, depth) matches Ok(hosts) ==> reached_all(inv, pats, depth) == hosts,
    decreases room(depth), pats.len(),
{
    if pats.len() > 0 {
        lemma_all_reached(inv, pats.drop_last(), depth);
        let pat = pats.last();
        if depth <= MAX_DEPTH && inv.groups.dom().contains(pat) {
            lemma_all_reached(inv, inv.groups[pat], depth + 1);
        }
        if let Ok(hosts) = expand_one(inv, pat, depth) {
            assert(reached_one(inv, pat, depth) == hosts);
        }
    }
}

// ---------------------------------------------------------------------------
// The ssh config
// ---------------------------------------------------------------------------

/// Whether a name of a `Host` line is one host's name: not a wildcard, and not
/// the negation of one.
pub open spec fn is_concrete(name: Seq<char>) -> bool {
    &&& !name.contains('*')
    &&& !name.contains('?')
    &&& !(name.len() > 0 && name[0] == '!')
}

/// The concrete ones of `names`, in order.
pub open spec fn concrete(names: Seq<Seq<char>>) -> Seq<Seq<char>> {
    names.filter(|n: Seq<char>| is_concrete(n))
}

/// The hosts that one line of an ssh config names: the concrete names after the
/// keyword `Host`, in whatever case it is written. Every other line, a comment
/// among them, names none.
pub open spec fn line_hosts(line: Seq<char>) -> Seq<Seq<char>> {
    let l = trimmed(line);
    let w = words_of(l);
    if l.len() == 0 || l[0] == '#' || w.len() == 0 || !same_but_ascii_case(w[0], "Host"@) {
        Seq::empty()
    } else {
        concrete(w.drop_first())
    }
}

/// `out` with the hosts added that each of the lines names.
pub open spec fn add_line_hosts(out: Seq<Seq<char>>, lines: Seq<Seq<char>>) -> Seq<Seq<char>>
    decreases lines.len(),
{
    if lines.len() == 0 {
        out
    } else {
        add_hosts(add_line_hosts(out, lines.drop_last()), line_hosts(lines.last()))
    }
}

/// The hosts that an ssh config names, without repetitions.
pub open spec fn config_hosts(text: Seq<char>) -> Seq<Seq<char>> {
    add_line_hosts(Seq::empty(), lines_of(text))
}

fn concrete_name(name: &str) -> (r: bool)
    ensures
        r == is_concrete(name@),
{
    if has_char(name, '*') || has_char(name, '?') {
        return false;
    }
    match strip_prefix(name, "!") {
        Some(_) => {
            proof {
                reveal_strlit("!");
                assert(name@.take(1)[0] == "!"@[0]);
            }
            false
        },
        None => {
            proof {
                reveal_strlit("!");
                if name@.len() > 0 && name@[0] == '!' {
                    assert(name@.take(1) =~= "!"@);
                }
            }
            true
        },
    }
}

/// Adds to `out` the hosts that the line names.
fn push_line_hosts(out: &mut Vec<String>, line: &str)
    ensures
        views(final(out)@) == add_hosts(views(old(out)@), line_hosts(line@)),
{
    let l: String = trim(line);
    if l.as_str().is_empty() {
        return;
    }
    let first: Option<String> = strip_prefix(l.as_str(), "#");
    proof {
        reveal_strlit("#");
        if l@[0] == '#' {
            assert(l@.take(1) =~= "#"@);
        }
        if l@.take(1) == "#"@ {
            assert(l@[0] == l@.take(1)[0]);
        }
    }
    if first.is_some() {
        return;
    }
    let w: Vec<String> = words(l.as_str());
    let ghost ws = views(w@);
    if w.len() == 0 {
        return;
    }
    if !same_ignoring_case(w[0].as_str(), "Host") {
        return;
    }
    let ghost names = ws.drop_first();
    let mut i: usize = 1;
    proof {
        reveal(Seq::filter);
        assert(names.take(0) =~= Seq::<Seq<char>>::empty());
    }
    while i < w.len()
        invariant
            1 <= i <= w@.len(),
            ws == views(w@),
            names == ws.drop_first(),
            views(out@) == add_hosts(views(old(out)@), concrete(names.take(i - 1))),
        decreases w@.len() - i,
    {
        proof {
            reveal(Seq::filter);
            assert(names.take(i as int).drop_last() =~= names.take(i - 1));
            assert(names.take(i as int).last() == w@[i as int]@);
            let before = concrete(names.take(i - 1));
            assert(before.push(w@[i as int]@).drop_last() =~= before);
        }
        if concrete_name(w[i].as_str()) {
            push_unique(out, w[i].as_str());
        }
        i = i + 1;
    }
    assert(names.take(names.len() as int) =~= names);
}

/// The hosts that an ssh config names.
pub fn parse_ssh_config_hosts(content: &str) -> (r: Vec<String>)
    ensures
        views(r@) == config_hosts(content@),
{
    let mut hosts: Vec<String> = Vec::new();
    let all: Vec<String> = lines(content);
    let ghost ls = views(all@);
    let mut i: usize = 0;
    assert(views(hosts@) =~= Seq::<Seq<char>>::empty());
    while i < all.len()
        invariant
            i <= all@.len(),
            ls == views(all@),
            views(hosts@) == add_line_hosts(Seq::empty(), ls.take(i as int)),
        decreases all@.len() - i,
    {
        push_line_hosts(&mut hosts, all[i].as_str());
        proof {
            assert(ls.take(i + 1).drop_last() =~= ls.take(i as int));
            assert(ls.take(i + 1).last() == all@[i as int]@);
        }
        i = i + 1;
    }
    assert(ls.take(ls.len() as int) =~= ls);
    hosts
}

// ---------------------------------------------------------------------------
// The groups
// ---------------------------------------------------------------------------

/// A group, as a dispatch config defines it.
#[derive(Debug, Clone)]
pub enum GroupDef {
    /// `web = ["a", "b"]`
    List(Vec<String>),
    /// `[groups.web]` with `hosts = ["a", "b"]`
    Detailed { hosts: Vec<String> },
}

/// The member patterns of a group.
pub open spec fn members_of(def: GroupDef) -> Seq<Seq<char>> {
    match def {
        GroupDef::List(l) => views(l@),
        GroupDef::Detailed { hosts } => views(hosts@),
    }
}

/// The groups that `defs` define, by name; the last definition of a name counts.
pub open spec fn group_map(defs: Seq<(String, GroupDef)>) -> Map<Seq<char>, Seq<Seq<char>>>
    decreases defs.len(),
{
    if defs.len() == 0 {
        Map::empty()
    } else {
        group_map(defs.drop_last()).insert(defs.last().0@, members_of(defs.last().1))
    }
}

/// The groups that `defs` define, by name.
pub fn parse_groups(defs: Vec<(String, GroupDef)>) -> (r: OrderedMap<Vec<String>>)
    ensures
        r.deep_view() == group_map(defs@),
{
    let mut groups: OrderedMap<Vec<String>> = OrderedMap::new();
    let ghost all = defs@;
    let ghost mut n: int = 0;
    assert(all.take(0) =~= Seq::empty());
    for (name, def) in it: defs
        invariant
            it.seq() == all,
            n == it.index(),
            groups.deep_view() == group_map(all.take(n)),
    {
        let ghost m = members_of(def);
        let ghost k = name@;
        let hosts: Vec<String> = match def {
            GroupDef::List(l) => l,
            GroupDef::Detailed { hosts } => hosts,
        };
        assert(hosts.deep_view() =~= m);
        groups.insert(name, hosts);
        proof {
            assert(all.take(n + 1).drop_last() =~= all.take(n));
            assert(all.take(n + 1).last() == (name, def));
            n = n + 1;
        }
    }
    assert(all.take(all.len() as int) =~= all);
    groups
}

// ---------------------------------------------------------------------------
// Laws
// ---------------------------------------------------------------------------

proof fn lemma_add_hosts(out: Seq<Seq<char>>, hosts: Seq<Seq<char>>)
    ensures
        out.no_duplicates() ==> add_hosts(out, hosts).no_duplicates(),
        forall|h: Seq<char>| #[trigger]
            add_hosts(out, hosts).contains(h) <==> out.contains(h) || hosts.contains(h),
    decreases hosts.len(),
{
    if hosts.len() > 0 {
        let before = add_hosts(out, hosts.drop_last());
        let after = add_hosts(out, hosts);
        lemma_add_hosts(out, hosts.drop_last());
        assert(hosts =~= hosts.drop_last().push(hosts.last()));
        assert forall|h: Seq<char>| #[trigger]
            after.contains(h) <==> out.contains(h) || hosts.contains(h) by {
            lemma_push_contains(before, hosts.last(), h);
            lemma_push_contains(hosts.drop_last(), hosts.last(), h);
            assert(before.contains(h) <==> out.contains(h) || hosts.drop_last().contains(h));
        }
        if out.no_duplicates() && !before.contains(hosts.last()) {
            assert forall|i: int, j: int|
                0 <= i < after.len() && 0 <= j < after.len() && i != j implies after[i]
                != after[j] by {
                if i < before.len() {
                    assert(before.contains(before[i]));
                }
                if j < before.len() {
                    assert(before.contains(before[j]));
                }
            }
        }
    }
}

proof fn lemma_push_contains(s: Seq<Seq<char>>, x: Seq<char>, h: Seq<char>)
    ensures
        s.push(x).contains(h) <==> s.contains(h) || x == h,
{
    if s.contains(h) {
        let i: int = choose|i: int| 0 <= i < s.len() && s[i] == h;
        assert(s.push(x)[i] == h);
    }
    if x == h {
        assert(s.push(x)[s.len() as int] == h);
    }
    if s.push(x).contains(h) {
        let i: int = choose|i: int| 0 <= i < s.push(x).len() && s.push(x)[i] == h;
        if i < s.len() {
            assert(s[i] == h);
        }
    }
}

/// A resolved list holds every host that the patterns stand for, no other, and
/// none of them twice.
pub proof fn resolution_is_the_set_of_hosts(inv: InventoryView, pats: Seq<Seq<char>>)
    ensures
        resolution(inv, pats) matches Ok(hosts) ==> {
            &&& hosts.no_duplicates()
            &&& expand_all(inv, pats, 0) is Ok
            &&& forall|h: Seq<char>| #[trigger]
                hosts.contains(h) <==> expand_all(inv, pats, 0)->Ok_0.contains(h)
        },
{
    if let Ok(hosts) = expand_all(inv, pats, 0) {
        lemma_add_hosts(Seq::empty(), hosts);
    }
}

/// A resolved list is never empty, and no patterns at all are an error.
pub proof fn resolution_is_never_empty(inv: InventoryView, pats: Seq<Seq<char>>)
    ensures
        resolution(inv, pats) matches Ok(hosts) ==> hosts.len() > 0,
        pats.len() == 0 ==> resolution(inv, pats) == Err::<Seq<Seq<char>>, ErrorView>(
            ErrorView::NoHosts,
        ),
{
    if let Ok(hosts) = expand_all(inv, pats, 0) {
        lemma_add_grows(Seq::empty(), hosts);
    }
}

/// Patterns stand for what their parts stand for, in order; the first error counts.
pub proof fn expansion_of_a_concatenation(
    inv: InventoryView,
    a: Seq<Seq<char>>,
    b: Seq<Seq<char>>,
    depth: nat,
)
    ensures
        expand_all(inv, a + b, depth) == (match expand_all(inv, a, depth) {
            Err(e) => Err(e),
            Ok(x) => match expand_all(inv, b, depth) {
                Err(e) => Err(e),
                Ok(y) => Ok(x + y),
            },
        }),
    decreases b.len(),
{
    if b.len() == 0 {
        assert(a + b =~= a);
        if let Ok(x) = expand_all(inv, a, depth) {
            assert(x + Seq::<Seq<char>>::empty() =~= x);
        }
    } else {
        assert((a + b).drop_last() =~= a + b.drop_last());
        expansion_of_a_concatenation(inv, a, b.drop_last(), depth);
        if let Ok(x) = expand_all(inv, a, depth) {
            if let Ok(y) = expand_all(inv, b.drop_last(), depth) {
                if let Ok(z) = expand_one(inv, b.last(), depth) {
                    assert((x + y) + z =~= x + (y + z));
                }
            }
        }
    }
}

/// Order is kept: more patterns leave the hosts of the earlier ones where they are.
pub proof fn resolution_keeps_earlier_hosts(
    inv: InventoryView,
    a: Seq<Seq<char>>,
    b: Seq<Seq<char>>,
)
    ensures
        resolution(inv, a) is Ok && resolution(inv, a + b) is Ok ==> {
            let first = resolution(inv, a)->Ok_0;
            let both = resolution(inv, a + b)->Ok_0;
            first.len() <= both.len() && both.take(first.len() as int) == first
        },
{
    expansion_of_a_concatenation(inv, a, b, 0);
    if let Ok(x) = expand_all(inv, a, 0) {
        if let Ok(y) = expand_all(inv, b, 0) {
            lemma_add_concat(Seq::empty(), x, y);
            lemma_add_grows(without_repetitions(x), y);
        }
    }
}

/// Those of `hosts` that are not in `known`, in order.
pub open spec fn new_hosts(known: Seq<Seq<char>>, hosts: Seq<Seq<char>>) -> Seq<Seq<char>> {
    hosts.filter(|h: Seq<char>| !known.contains(h))
}

proof fn lemma_add_is_append(out: Seq<Seq<char>>, hosts: Seq<Seq<char>>)
    ensures
        add_hosts(out, hosts) == out + new_hosts(out, without_repetitions(hosts)),
    decreases hosts.len(),
{
    reveal(Seq::filter);
    if hosts.len() == 0 {
        assert(out + new_hosts(out, Seq::empty()) =~= out);
    } else {
        let h = hosts.last();
        let front = hosts.drop_last();
        let before = without_repetitions(front);
        lemma_add_is_append(out, front);
        lemma_add_hosts(out, front);
        lemma_add_hosts(Seq::empty(), front);
        assert(add_hosts(out, front).contains(h) <==> out.contains(h) || front.contains(h));
        assert(before.contains(h) <==> front.contains(h));
        if !before.contains(h) {
            assert(before.push(h).drop_last() =~= before);
            if !out.contains(h) {
                assert((out + new_hosts(out, before)).push(h) =~= out + new_hosts(
                    out,
                    before,
                ).push(h));
            }
        }
    }
}

/// What two lists of patterns resolve to when they are given together, from what
/// each resolves to. An error counts, the first of two; but that a list stands for
/// no host counts only where both do.
pub open spec fn combined(
    a: Result<Seq<Seq<char>>, ErrorView>,
    b: Result<Seq<Seq<char>>, ErrorView>,
) -> Result<Seq<Seq<char>>, ErrorView> {
    match (a, b) {
        (Err(ErrorView::NoHosts), _) => b,
        (Err(_), _) => a,
        (Ok(_), Err(ErrorView::NoHosts)) => a,
        (Ok(_), Err(_)) => b,
        (Ok(x), Ok(y)) => Ok(x + new_hosts(x, y)),
    }
}

/// Patterns resolve to the hosts of the first of them, and then to those of the
/// others that are not among these.
pub proof fn resolution_of_a_concatenation(
    inv: InventoryView,
    a: Seq<Seq<char>>,
    b: Seq<Seq<char>>,
)
    ensures
        resolution(inv, a + b) == combined(resolution(inv, a), resolution(inv, b)),
{
    expansion_of_a_concatenation(inv, a, b, 0);
    expansion_fails_only_on_depth(inv, a, 0);
    expansion_fails_only_on_depth(inv, b, 0);
    if let Ok(x) = expand_all(inv, a, 0) {
        if let Ok(y) = expand_all(inv, b, 0) {
            lemma_add_concat(Seq::empty(), x, y);
            lemma_add_is_append(without_repetitions(x), y);
            if x.len() == 0 {
                assert(x + y =~= y);
            }
            if y.len() == 0 {
                assert(x + y =~= x);
            }
        }
    }
}

proof fn lemma_add_known(out: Seq<Seq<char>>, hosts: Seq<Seq<char>>)
    requires
        forall|h: Seq<char>| hosts.contains(h) ==> #[trigger] out.contains(h),
    ensures
        add_hosts(out, hosts) == out,
    decreases hosts.len(),
{
    if hosts.len() > 0 {
        assert(hosts.contains(hosts.last()));
        assert forall|h: Seq<char>| hosts.drop_last().contains(h) implies #[trigger] out.contains(
            h,
        ) by {
            let i: int = choose|i: int|
                0 <= i < hosts.drop_last().len() && hosts.drop_last()[i] == h;
            assert(hosts[i] == h);
        }
        lemma_add_known(out, hosts.drop_last());
    }
}

/// Patterns given once more change nothing.
pub proof fn repeated_patterns_change_nothing(inv: InventoryView, pats: Seq<Seq<char>>)
    ensures
        resolution(inv, pats + pats) == resolution(inv, pats),
{
    expansion_of_a_concatenation(inv, pats, pats, 0);
    if let Ok(x) = expand_all(inv, pats, 0) {
        lemma_add_concat(Seq::empty(), x, x);
        lemma_add_hosts(Seq::empty(), x);
        lemma_add_known(without_repetitions(x), x);
    }
}

proof fn lemma_single(inv: InventoryView, pat: Seq<char>, depth: nat)
    ensures
        expand_all(inv, seq![pat], depth) == expand_one(inv, pat, depth),
{
    let one = seq![pat];
    assert(one.drop_last() =~= Seq::<Seq<char>>::empty());
    assert(one.last() == pat);
    reveal_with_fuel(expand_all, 2);
    if let Ok(x) = expand_one(inv, pat, depth) {
        assert(Seq::<Seq<char>>::empty() + x =~= x);
    }
}

proof fn lemma_single_host(host: Seq<char>)
    ensures
        without_repetitions(seq![host]) == seq![host],
{
    lemma_add_one(Seq::empty(), host);
    assert(Seq::<Seq<char>>::empty().push(host) =~= seq![host]);
}

/// A literal alias, hostname or IP resolves to itself, known or not.
pub proof fn literals_pass_through(inv: InventoryView, pat: Seq<char>)
    requires
        !inv.groups.dom().contains(pat),
        !has_wildcard(pat),
    ensures
        resolution(inv, seq![pat]) == Ok::<Seq<Seq<char>>, ErrorView>(seq![pat]),
{
    lemma_single(inv, pat, 0);
    lemma_single_host(pat);
}

/// A wildcard resolves to the aliases that it matches, or to itself where it
/// matches none.
pub proof fn wildcards_resolve_to_their_matches(inv: InventoryView, pat: Seq<char>)
    requires
        !inv.groups.dom().contains(pat),
        has_wildcard(pat),
    ensures
        ({
            let matching = chosen(inv.aliases, verdicts_of(pat, inv.aliases));
            resolution(inv, seq![pat]) == Ok::<Seq<Seq<char>>, ErrorView>(
                if matching.len() > 0 {
                    without_repetitions(matching)
                } else {
                    seq![pat]
                },
            )
        }),
{
    lemma_single(inv, pat, 0);
    lemma_single_host(pat);
}

/// The matches of a wildcard are exactly the aliases that the glob matches.
pub proof fn matches_are_the_matching_aliases(pat: Seq<char>, aliases: Seq<Seq<char>>)
    ensures
        forall|h: Seq<char>| #[trigger]
            chosen(aliases, verdicts_of(pat, aliases)).contains(h) <==> aliases.contains(h)
                && glob_match(pat, h) == Some(true),
    decreases aliases.len(),
{
    let all = chosen(aliases, verdicts_of(pat, aliases));
    if aliases.len() > 0 {
        let rest = aliases.drop_last();
        matches_are_the_matching_aliases(pat, rest);
        assert(verdicts_of(pat, aliases).drop_last() =~= verdicts_of(pat, rest));
        let before = chosen(rest, verdicts_of(pat, rest));
        assert(aliases =~= rest.push(aliases.last()));
        assert forall|h: Seq<char>| #[trigger]
            all.contains(h) <==> aliases.contains(h) && glob_match(pat, h) == Some(true) by {
            lemma_push_contains(rest, aliases.last(), h);
            lemma_push_contains(before, aliases.last(), h);
            assert(before.contains(h) <==> rest.contains(h) && glob_match(pat, h) == Some(true));
        }
    }
}

/// A name that is a group stands for what the group's members stand for, also
/// where it is an alias, or looks like a wildcard.
pub proof fn groups_come_first(inv: InventoryView, pat: Seq<char>)
    requires
        inv.groups.dom().contains(pat),
    ensures
        expand_all(inv, seq![pat], 0) == expand_all(inv, inv.groups[pat], 1),
{
    lemma_single(inv, pat, 0);
}

/// Expansion fails only on groups that are nested too deep.
pub proof fn expansion_fails_only_on_depth(inv: InventoryView, pats: Seq<Seq<char>>, depth: nat)
    ensures
        expand_all(inv, pats, depth) matches Err(e) ==> exists|pat: Seq<char>|
            e == #[trigger] too_deep(pat),
    decreases room(depth), pats.len(),
{
    if pats.len() > 0 {
        expansion_fails_only_on_depth(inv, pats.drop_last(), depth);
        let pat = pats.last();
        if depth > MAX_DEPTH {
            assert(expand_one(inv, pat, depth) == Err::<Seq<Seq<char>>, ErrorView>(too_deep(pat)));
        } else if inv.groups.dom().contains(pat) {
            expansion_fails_only_on_depth(inv, inv.groups[pat], depth + 1);
        }
    }
}

/// Whether every group of `names` has a member in `names`, so that expanding one
/// of them comes to no end.
pub open spec fn endless(inv: InventoryView, names: Set<Seq<char>>) -> bool {
    forall|g: Seq<char>| #[trigger]
        names.contains(g) ==> inv.groups.dom().contains(g) && exists|i: int|
            0 <= i < inv.groups[g].len() && names.contains(#[trigger] inv.groups[g][i])
}

/// A group that contains itself, directly or through other groups, is refused.
pub proof fn cyclic_groups_are_refused(
    inv: InventoryView,
    names: Set<Seq<char>>,
    pat: Seq<char>,
    depth: nat,
)
    requires
        endless(inv, names),
        names.contains(pat),
    ensures
        expand_one(inv, pat, depth) is Err,
    decreases room(depth),
{
    if depth <= MAX_DEPTH {
        let members = inv.groups[pat];
        let i: int = choose|i: int|
            0 <= i < members.len() && names.contains(#[trigger] members[i]);
        cyclic_groups_are_refused(inv, names, members[i], depth + 1);
        assert(members.take(i + 1).drop_last() =~= members.take(i));
        assert(members.take(i + 1).last() == members[i]);
        assert(expand_all(inv, members.take(i + 1), depth + 1) is Err);
        lemma_expand_prefix(inv, members, i + 1, depth + 1);
    }
}

/// Patterns with such a group among them do not resolve, and the error says that
/// groups are nested too deep.
pub proof fn cycles_do_not_resolve(
    inv: InventoryView,
    names: Set<Seq<char>>,
    pats: Seq<Seq<char>>,
    i: int,
)
    requires
        endless(inv, names),
        0 <= i < pats.len(),
        names.contains(pats[i]),
    ensures
        exists|pat: Seq<char>|
            resolution(inv, pats) == Err::<Seq<Seq<char>>, ErrorView>(#[trigger] too_deep(pat)),
{
    cyclic_groups_are_refused(inv, names, pats[i], 0);
    assert(pats.take(i + 1).drop_last() =~= pats.take(i));
    assert(pats.take(i + 1).last() == pats[i]);
    assert(expand_all(inv, pats.take(i + 1), 0) is Err);
    lemma_expand_prefix(inv, pats, i + 1, 0);
    expansion_fails_only_on_depth(inv, pats, 0);
}

/// Whether each group that is a member of another has a lower rank than that one.
pub open spec fn ranked(inv: InventoryView, rank: spec_fn(Seq<char>) -> nat) -> bool {
    forall|g: Seq<char>, i: int|
        inv.groups.dom().contains(g) && 0 <= i < inv.groups[g].len()
            && inv.groups.dom().contains(#[trigger] inv.groups[g][i]) ==> rank(inv.groups[g][i])
            < rank(g)
}

/// Groups that are nested within the limit are expanded: where each group in
/// another has a lower rank, and the ranks leave room for the literals below
/// them, nothing is refused.
pub proof fn nested_groups_are_expanded(
    inv: InventoryView,
    rank: spec_fn(Seq<char>) -> nat,
    pat: Seq<char>,
    depth: nat,
)
    requires
        ranked(inv, rank),
        depth <= MAX_DEPTH,
        inv.groups.dom().contains(pat) ==> depth + rank(pat) < MAX_DEPTH,
    ensures
        expand_one(inv, pat, depth) is Ok,
    decreases MAX_DEPTH + 1 - depth, 1nat, 0nat,
{
    if inv.groups.dom().contains(pat) {
        lemma_members_are_expanded(inv, rank, pat, inv.groups[pat].len() as int, depth + 1);
        assert(inv.groups[pat].take(inv.groups[pat].len() as int) =~= inv.groups[pat]);
    }
}

/// Patterns whose groups are nested within the limit resolve, unless they stand
/// for no host.
pub proof fn nested_groups_resolve(
    inv: InventoryView,
    rank: spec_fn(Seq<char>) -> nat,
    pats: Seq<Seq<char>>,
)
    requires
        ranked(inv, rank),
        forall|i: int|
            0 <= i < pats.len() && inv.groups.dom().contains(#[trigger] pats[i]) ==> rank(pats[i])
                < MAX_DEPTH,
    ensures
        expand_all(inv, pats, 0) is Ok,
        resolution(inv, pats) matches Err(e) ==> e == ErrorView::NoHosts,
    decreases pats.len(),
{
    if pats.len() > 0 {
        let front = pats.drop_last();
        assert forall|i: int|
            0 <= i < front.len() && inv.groups.dom().contains(#[trigger] front[i]) implies rank(
            front[i],
        ) < MAX_DEPTH by {
            assert(front[i] == pats[i]);
        }
        nested_groups_resolve(inv, rank, front);
        assert(pats.last() == pats[pats.len() - 1]);
        nested_groups_are_expanded(inv, rank, pats.last(), 0);
    }
}

proof fn lemma_members_are_expanded(
    inv: InventoryView,
    rank: spec_fn(Seq<char>) -> nat,
    group: Seq<char>,
    n: int,
    depth: nat,
)
    requires
        ranked(inv, rank),
        inv.groups.dom().contains(group),
        0 <= n <= inv.groups[group].len(),
        depth <= MAX_DEPTH,
        depth + rank(group) <= MAX_DEPTH,
    ensures
        expand_all(inv, inv.groups[group].take(n), depth) is Ok,
    decreases MAX_DEPTH + 1 - depth, 2nat, n,
{
    if n > 0 {
        let members = inv.groups[group];
        lemma_members_are_expanded(inv, rank, group, n - 1, depth);
        assert(members.take(n).drop_last() =~= members.take(n - 1));
        assert(members.take(n).last() == members[n - 1]);
        nested_groups_are_expanded(inv, rank, members[n - 1], depth);
    }
}

/// Whether `h` is an alias or a member of a group.
pub open spec fn named(inv: InventoryView, h: Seq<char>) -> bool {
    inv.aliases.contains(h) || exists|g: Seq<char>|
        inv.groups.dom().contains(g) && #[trigger] inv.groups[g].contains(h)
}

/// Every host that `pat` stands for, or leads to before an error, is an alias,
/// `pat` itself or a group's member: resolution makes up no names.
pub proof fn hosts_are_not_made_up(inv: InventoryView, pat: Seq<char>, depth: nat)
    ensures
        forall|h: Seq<char>| #[trigger]
            reached_one(inv, pat, depth).contains(h) ==> h == pat || named(inv, h),
        expand_one(inv, pat, depth) matches Ok(hosts) ==> hosts == reached_one(inv, pat, depth),
    decreases room(depth), 1nat, 0nat,
{
    if depth <= MAX_DEPTH {
        if inv.groups.dom().contains(pat) {
            lemma_member_hosts(inv, pat, inv.groups[pat].len() as int, depth + 1);
            assert(inv.groups[pat].take(inv.groups[pat].len() as int) =~= inv.groups[pat]);
            lemma_all_reached(inv, inv.groups[pat], depth + 1);
            assert(reached_one(inv, pat, depth) == reached_all(inv, inv.groups[pat], depth + 1));
        } else {
            matches_are_the_matching_aliases(pat, inv.aliases);
            let hosts = reached_one(inv, pat, depth);
            assert forall|h: Seq<char>| #[trigger] hosts.contains(h) implies h == pat || named(
                inv,
                h,
            ) by {
                let matching = chosen(inv.aliases, verdicts_of(pat, inv.aliases));
                if hosts != seq![pat] {
                    assert(hosts == matching);
                    assert(matching.contains(h));
                }
            }
        }
    }
}

proof fn lemma_member_hosts(inv: InventoryView, group: Seq<char>, n: int, depth: nat)
    requires
        inv.groups.dom().contains(group),
        0 <= n <= inv.groups[group].len(),
    ensures
        forall|h: Seq<char>| #[trigger]
            reached_all(inv, inv.groups[group].take(n), depth).contains(h) ==> named(inv, h),
    decreases room(depth), 2nat, n,
{
    let members = inv.groups[group];
    if n > 0 {
        lemma_member_hosts(inv, group, n - 1, depth);
        assert(members.take(n).drop_last() =~= members.take(n - 1));
        assert(members.take(n).last() == members[n - 1]);
        hosts_are_not_made_up(inv, members[n - 1], depth);
        let before = reached_all(inv, members.take(n - 1), depth);
        let last = reached_one(inv, members[n - 1], depth);
        let hosts = reached_all(inv, members.take(n), depth);
        assert forall|h: Seq<char>| #[trigger] hosts.contains(h) implies named(inv, h) by {
            let i: int = choose|i: int| 0 <= i < hosts.len() && hosts[i] == h;
            if i < before.len() {
                assert(before[i] == h);
                assert(before.contains(h));
            } else {
                assert(last[i - before.len()] == h);
                assert(last.contains(h));
                assert(members.contains(members[n - 1]));
            }
        }
    }
}

/// A list that hosts are added to, up to an error or to the end, keeps what it
/// held where it was, holds no host twice if it did not before, and gains exactly
/// the hosts that were reached.
pub proof fn lists_only_grow(out: Seq<Seq<char>>, inv: InventoryView, pat: Seq<char>, depth: nat)
    ensures
        ({
            let after = add_hosts(out, reached_one(inv, pat, depth));
            &&& out.len() <= after.len()
            &&& after.take(out.len() as int) == out
            &&& out.no_duplicates() ==> after.no_duplicates()
            &&& forall|h: Seq<char>| #[trigger]
                after.contains(h) <==> out.contains(h) || reached_one(inv, pat, depth).contains(h)
        }),
{
    lemma_add_grows(out, reached_one(inv, pat, depth));
    lemma_add_hosts(out, reached_one(inv, pat, depth));
}

/// A pattern that is nested too deep itself is refused and leaves the list as it
/// was.
pub proof fn depth_is_refused_at_once(
    out: Seq<Seq<char>>,
    inv: InventoryView,
    pat: Seq<char>,
    depth: nat,
)
    requires
        depth > MAX_DEPTH,
    ensures
        expand_one(inv, pat, depth) == Err::<Seq<Seq<char>>, ErrorView>(too_deep(pat)),
        add_hosts(out, reached_one(inv, pat, depth)) == out,
{
}

proof fn lemma_concrete_names(names: Seq<Seq<char>>, h: Seq<char>)
    ensures
        concrete(names).contains(h) <==> is_concrete(h) && names.contains(h),
    decreases names.len(),
{
    reveal(Seq::filter);
    if names.len() > 0 {
        let front = names.drop_last();
        lemma_concrete_names(front, h);
        lemma_push_contains(concrete(front), names.last(), h);
        lemma_push_contains(front, names.last(), h);
        assert(names =~= front.push(names.last()));
    }
}

/// Whether the line has the keyword `Host`, in whatever case, and `name` after it.
pub open spec fn names_after_host(line: Seq<char>, name: Seq<char>) -> bool {
    let l = trimmed(line);
    let w = words_of(l);
    &&& l.len() > 0
    &&& l[0] != '#'
    &&& w.len() > 0
    &&& same_but_ascii_case(w[0], "Host"@)
    &&& w.drop_first().contains(name)
}

/// The aliases of an ssh config are concrete names, each of them once. The
/// catch-all `Host *` is not among them.
pub proof fn aliases_are_concrete_and_distinct(text: Seq<char>)
    ensures
        config_hosts(text).no_duplicates(),
        forall|h: Seq<char>| #[trigger] config_hosts(text).contains(h) ==> is_concrete(h),
{
    lemma_line_hosts(lines_of(text));
    assert forall|h: Seq<char>| #[trigger] config_hosts(text).contains(h) implies is_concrete(
        h,
    ) by {
        aliases_are_the_names_after_host(text, h);
    }
}

/// The aliases of an ssh config are exactly the concrete names that stand after
/// `Host` in one of its lines.
pub proof fn aliases_are_the_names_after_host(text: Seq<char>, h: Seq<char>)
    ensures
        config_hosts(text).contains(h) <==> is_concrete(h) && exists|i: int|
            0 <= i < lines_of(text).len() && names_after_host(#[trigger] lines_of(text)[i], h),
{
    lemma_names(lines_of(text), h);
}

proof fn lemma_names(ls: Seq<Seq<char>>, h: Seq<char>)
    ensures
        add_line_hosts(Seq::empty(), ls).contains(h) <==> is_concrete(h) && exists|i: int|
            0 <= i < ls.len() && names_after_host(#[trigger] ls[i], h),
    decreases ls.len(),
{
    if ls.len() > 0 {
        let n: int = ls.len() - 1;
        let front = ls.drop_last();
        let before = add_line_hosts(Seq::empty(), front);
        lemma_names(front, h);
        lemma_add_hosts(before, line_hosts(ls[n]));
        lemma_concrete_names(words_of(trimmed(ls[n])).drop_first(), h);
        assert(line_hosts(ls[n]).contains(h) <==> is_concrete(h) && names_after_host(ls[n], h));
        assert(add_line_hosts(Seq::empty(), ls).contains(h) <==> before.contains(h)
            || line_hosts(ls[n]).contains(h));
        if exists|i: int| 0 <= i < front.len() && names_after_host(#[trigger] front[i], h) {
            let i: int = choose|i: int|
                0 <= i < front.len() && names_after_host(#[trigger] front[i], h);
            assert(ls[i] == front[i]);
        }
        if exists|i: int| 0 <= i < ls.len() && names_after_host(#[trigger] ls[i], h) {
            let i: int = choose|i: int|
                0 <= i < ls.len() && names_after_host(#[trigger] ls[i], h);
            if i < n {
                assert(front[i] == ls[i]);
            }
        }
    }
}

proof fn lemma_line_hosts(ls: Seq<Seq<char>>)
    ensures
        add_line_hosts(Seq::empty(), ls).no_duplicates(),
    decreases ls.len(),
{
    if ls.len() > 0 {
        lemma_line_hosts(ls.drop_last());
        lemma_add_hosts(
            add_line_hosts(Seq::empty(), ls.drop_last()),
            line_hosts(ls.last()),
        );
    }
}

/// An alias is chosen exactly where its verdict says so, and the chosen ones keep
/// their order.
pub proof fn verdicts_choose_their_aliases(
    aliases: Seq<Seq<char>>,
    verdicts: Seq<bool>,
    alias: Seq<char>,
    verdict: bool,
)
    requires
        aliases.len() == verdicts.len(),
    ensures
        chosen(Seq::empty(), Seq::empty()).len() == 0,
        chosen(aliases.push(alias), verdicts.push(verdict)) == (if verdict {
            chosen(aliases, verdicts).push(alias)
        } else {
            chosen(aliases, verdicts)
        }),
{
    assert(aliases.push(alias).drop_last() =~= aliases);
    assert(verdicts.push(verdict).drop_last() =~= verdicts);
}

/// The aliases that the glob `pat` matches, in order.
pub open spec fn matched(pat: Seq<char>, aliases: Seq<Seq<char>>) -> Seq<Seq<char>> {
    aliases.filter(|h: Seq<char>| glob_match(pat, h) == Some(true))
}

proof fn lemma_chosen_are_matched(pat: Seq<char>, aliases: Seq<Seq<char>>)
    ensures
        chosen(aliases, verdicts_of(pat, aliases)) == matched(pat, aliases),
    decreases aliases.len(),
{
    reveal(Seq::filter);
    if aliases.len() > 0 {
        lemma_chosen_are_matched(pat, aliases.drop_last());
        assert(verdicts_of(pat, aliases).drop_last() =~= verdicts_of(pat, aliases.drop_last()));
    } else {
        assert(matched(pat, aliases) =~= Seq::<Seq<char>>::empty());
    }
}

/// The hosts that a pattern which is no group stands for: where it holds a `*`, a
/// `?` or a `[`, the aliases that it matches, if there are any, and itself
/// otherwise.
pub open spec fn plain_hosts(aliases: Seq<Seq<char>>, pat: Seq<char>) -> Seq<Seq<char>> {
    if (pat.contains('*') || pat.contains('?') || pat.contains('[')) && matched(pat, aliases).len()
        > 0 {
        matched(pat, aliases)
    } else {
        seq![pat]
    }
}

/// At every depth that is not refused, a group stands for its members, one level
/// deeper, and every other pattern for the same hosts: a wildcard for exactly the
/// aliases that it matches, in order, or for itself where it matches none, and a
/// literal for itself. What is deeper than 16 levels is refused.
pub proof fn patterns_mean_the_same_at_every_depth(
    inv: InventoryView,
    pat: Seq<char>,
    depth: nat,
)
    ensures
        depth <= 16 && inv.groups.dom().contains(pat) ==> {
            &&& expand_one(inv, pat, depth) == expand_all(inv, inv.groups[pat], depth + 1)
            &&& reached_one(inv, pat, depth) == reached_all(inv, inv.groups[pat], depth + 1)
        },
        depth <= 16 && !inv.groups.dom().contains(pat) ==> {
            &&& expand_one(inv, pat, depth) == Ok::<Seq<Seq<char>>, ErrorView>(
                plain_hosts(inv.aliases, pat),
            )
            &&& reached_one(inv, pat, depth) == plain_hosts(inv.aliases, pat)
        },
        depth > 16 ==> {
            &&& expand_one(inv, pat, depth) == Err::<Seq<Seq<char>>, ErrorView>(
                ErrorView::Config("group recursion too deep at '"@ + pat + "'"@),
            )
            &&& reached_one(inv, pat, depth).len() == 0
        },
{
    lemma_chosen_are_matched(pat, inv.aliases);
}

/// Patterns are expanded one by one, in order, up to the first that is refused.
pub proof fn patterns_are_expanded_one_by_one(
    inv: InventoryView,
    a: Seq<Seq<char>>,
    pat: Seq<char>,
    b: Seq<Seq<char>>,
    depth: nat,
)
    ensures
        expand_all(inv, Seq::empty(), depth) == Ok::<Seq<Seq<char>>, ErrorView>(Seq::empty()),
        expand_all(inv, seq![pat], depth) == expand_one(inv, pat, depth),
        reached_all(inv, Seq::empty(), depth).len() == 0,
        reached_all(inv, seq![pat], depth) == reached_one(inv, pat, depth),
        expand_all(inv, a, depth) is Err ==> {
            &&& expand_all(inv, a + b, depth) == expand_all(inv, a, depth)
            &&& reached_all(inv, a + b, depth) == reached_all(inv, a, depth)
        },
        expand_all(inv, a, depth) is Ok ==> reached_all(inv, a + b, depth) == reached_all(
            inv,
            a,
            depth,
        ) + reached_all(inv, b, depth),
    decreases b.len(),
{
    lemma_single(inv, pat, depth);
    let one = seq![pat];
    assert(one.drop_last() =~= Seq::<Seq<char>>::empty());
    assert(one.last() == pat);
    reveal_with_fuel(reached_all, 2);
    assert(Seq::<Seq<char>>::empty() + reached_one(inv, pat, depth) =~= reached_one(
        inv,
        pat,
        depth,
    ));
    if b.len() == 0 {
        assert(a + b =~= a);
        assert(reached_all(inv, a, depth) + reached_all(inv, b, depth) =~= reached_all(
            inv,
            a,
            depth,
        ));
    } else {
        assert((a + b).drop_last() =~= a + b.drop_last());
        assert((a + b).last() == b.last());
        expansion_of_a_concatenation(inv, a, b.drop_last(), depth);
        patterns_are_expanded_one_by_one(inv, a, pat, b.drop_last(), depth);
        assert(reached_all(inv, a + b, depth) =~= (if expand_all(inv, a, depth) is Err {
            reached_all(inv, a, depth)
        } else {
            reached_all(inv, a, depth) + reached_all(inv, b, depth)
        }));
    }
}

/// What patterns stand for does not depend on how deep they are nested, as long as
/// nothing is refused.
pub proof fn expansion_does_not_depend_on_depth(
    inv: InventoryView,
    pats: Seq<Seq<char>>,
    d: nat,
    e: nat,
)
    ensures
        expand_all(inv, pats, d) is Ok && expand_all(inv, pats, e) is Ok ==> expand_all(
            inv,
            pats,
            d,
        ) == expand_all(inv, pats, e),
    decreases room(d), pats.len(),
{
    if pats.len() > 0 && expand_all(inv, pats, d) is Ok && expand_all(inv, pats, e) is Ok {
        let pat = pats.last();
        expansion_does_not_depend_on_depth(inv, pats.drop_last(), d, e);
        assert(expand_one(inv, pat, d) is Ok && expand_one(inv, pat, e) is Ok);
        patterns_mean_the_same_at_every_depth(inv, pat, d);
        patterns_mean_the_same_at_every_depth(inv, pat, e);
        if inv.groups.dom().contains(pat) {
            expansion_does_not_depend_on_depth(inv, inv.groups[pat], d + 1, e + 1);
        }
    }
}

/// Whether each pattern of `path` but the last is a group, and the next one its
/// member.
pub open spec fn leads_down(inv: InventoryView, path: Seq<Seq<char>>) -> bool {
    &&& path.len() > 0
    &&& forall|i: int|
        0 <= i < path.len() - 1 ==> inv.groups.dom().contains(#[trigger] path[i])
            && inv.groups[path[i]].contains(path[i + 1])
}

/// Whether `path` leads from `pat` down to a pattern that is nested too deep when
/// `pat` itself is at `depth`.
pub open spec fn leads_too_deep(
    inv: InventoryView,
    pat: Seq<char>,
    depth: nat,
    path: Seq<Seq<char>>,
) -> bool {
    leads_down(inv, path) && path[0] == pat && path.len() + depth == 18
}

proof fn lemma_refused_member(inv: InventoryView, pats: Seq<Seq<char>>, depth: nat) -> (i: int)
    requires
        expand_all(inv, pats, depth) is Err,
    ensures
        0 <= i < pats.len(),
        expand_one(inv, pats[i], depth) is Err,
    decreases pats.len(),
{
    if expand_all(inv, pats.drop_last(), depth) is Err {
        lemma_refused_member(inv, pats.drop_last(), depth)
    } else {
        pats.len() - 1
    }
}

proof fn lemma_refused_by_member(
    inv: InventoryView,
    pats: Seq<Seq<char>>,
    pat: Seq<char>,
    depth: nat,
)
    requires
        pats.contains(pat),
        expand_one(inv, pat, depth) is Err,
    ensures
        expand_all(inv, pats, depth) is Err,
{
    let i: int = choose|i: int| 0 <= i < pats.len() && pats[i] == pat;
    assert(pats.take(i + 1).drop_last() =~= pats.take(i));
    assert(pats.take(i + 1).last() == pats[i]);
    assert(expand_all(inv, pats.take(i + 1), depth) is Err);
    lemma_expand_prefix(inv, pats, i + 1, depth);
}

/// A pattern is refused exactly where a way down through groups and their members
/// leads from it to the level after the sixteenth.
pub proof fn only_deep_nesting_is_refused(inv: InventoryView, pat: Seq<char>, depth: nat)
    requires
        depth <= 17,
    ensures
        expand_one(inv, pat, depth) is Err <==> exists|path: Seq<Seq<char>>| #[trigger]
            leads_too_deep(inv, pat, depth, path),
    decreases room(depth),
{
    patterns_mean_the_same_at_every_depth(inv, pat, depth);
    if depth == 17 {
        let path = seq![pat];
        assert(leads_too_deep(inv, pat, depth, path));
    } else {
        if expand_one(inv, pat, depth) is Err {
            let members = inv.groups[pat];
            let i: int = lemma_refused_member(inv, members, depth + 1);
            only_deep_nesting_is_refused(inv, members[i], depth + 1);
            let rest = choose|rest: Seq<Seq<char>>| #[trigger]
                leads_too_deep(inv, members[i], depth + 1, rest);
            let path = seq![pat] + rest;
            assert forall|k: int| 0 <= k < path.len() - 1 implies inv.groups.dom().contains(
                #[trigger] path[k],
            ) && inv.groups[path[k]].contains(path[k + 1]) by {
                if k > 0 {
                    assert(path[k] == rest[k - 1] && path[k + 1] == rest[k]);
                } else {
                    assert(members.contains(members[i]));
                }
            }
            assert(leads_too_deep(inv, pat, depth, path));
        }
        if exists|path: Seq<Seq<char>>| #[trigger] leads_too_deep(inv, pat, depth, path) {
            let path = choose|path: Seq<Seq<char>>| #[trigger]
                leads_too_deep(inv, pat, depth, path);
            let rest = path.drop_first();
            assert(inv.groups.dom().contains(path[0]) && inv.groups[path[0]].contains(path[1]));
            assert forall|k: int| 0 <= k < rest.len() - 1 implies inv.groups.dom().contains(
                #[trigger] rest[k],
            ) && inv.groups[rest[k]].contains(rest[k + 1]) by {
                assert(rest[k] == path[k + 1] && rest[k + 1] == path[k + 1 + 1]);
            }
            assert(leads_too_deep(inv, path[1], depth + 1, rest));
            only_deep_nesting_is_refused(inv, path[1], depth + 1);
            lemma_refused_by_member(inv, inv.groups[pat], path[1], depth + 1);
        }
    }
}

/// Whether `path` leads from `pat` down to a pattern that is no group and stands
/// for `h`.
pub open spec fn leads_to_host(
    inv: InventoryView,
    pat: Seq<char>,
    path: Seq<Seq<char>>,
    h: Seq<char>,
) -> bool {
    &&& leads_down(inv, path)
    &&& path[0] == pat
    &&& !inv.groups.dom().contains(path.last())
    &&& plain_hosts(inv.aliases, path.last()).contains(h)
}

proof fn lemma_member_of_expansion(
    inv: InventoryView,
    pats: Seq<Seq<char>>,
    depth: nat,
    h: Seq<char>,
)
    requires
        expand_all(inv, pats, depth) is Ok,
    ensures
        expand_all(inv, pats, depth)->Ok_0.contains(h) <==> exists|i: int|
            0 <= i < pats.len() && expand_one(inv, #[trigger] pats[i], depth) is Ok && expand_one(
                inv,
                pats[i],
                depth,
            )->Ok_0.contains(h),
        forall|i: int| 0 <= i < pats.len() ==> expand_one(inv, #[trigger] pats[i], depth) is Ok,
    decreases pats.len(),
{
    if pats.len() > 0 {
        let n: int = pats.len() - 1;
        let front = pats.drop_last();
        lemma_member_of_expansion(inv, front, depth, h);
        let before = expand_all(inv, front, depth)->Ok_0;
        let last = expand_one(inv, pats[n], depth)->Ok_0;
        let all = expand_all(inv, pats, depth)->Ok_0;
        assert(all == before + last);
        assert forall|i: int| 0 <= i < pats.len() implies expand_one(
            inv,
            #[trigger] pats[i],
            depth,
        ) is Ok by {
            if i < n {
                assert(front[i] == pats[i]);
            }
        }
        if all.contains(h) {
            let k: int = choose|k: int| 0 <= k < all.len() && all[k] == h;
            if k < before.len() {
                assert(before[k] == h);
                let i: int = choose|i: int|
                    0 <= i < front.len() && expand_one(inv, #[trigger] front[i], depth) is Ok
                        && expand_one(inv, front[i], depth)->Ok_0.contains(h);
                assert(pats[i] == front[i]);
            } else {
                assert(last[k - before.len()] == h);
                assert(expand_one(inv, pats[n], depth)->Ok_0.contains(h));
            }
        }
        if exists|i: int|
            0 <= i < pats.len() && expand_one(inv, #[trigger] pats[i], depth) is Ok && expand_one(
                inv,
                pats[i],
                depth,
            )->Ok_0.contains(h) {
            let i: int = choose|i: int|
                0 <= i < pats.len() && expand_one(inv, #[trigger] pats[i], depth) is Ok
                    && expand_one(inv, pats[i], depth)->Ok_0.contains(h);
            if i < n {
                assert(front[i] == pats[i]);
                assert(before.contains(h));
                let k: int = choose|k: int| 0 <= k < before.len() && before[k] == h;
                assert(all[k] == h);
            } else {
                let k: int = choose|k: int| 0 <= k < last.len() && last[k] == h;
                assert(all[before.len() + k] == h);
            }
        }
    }
}

/// The hosts of a pattern are exactly those to which a way down through groups and
/// their members leads: an alias that a wildcard at its end matches, or the literal
/// at its end.
pub proof fn hosts_are_those_at_the_end_of_a_way_down(
    inv: InventoryView,
    pat: Seq<char>,
    depth: nat,
    h: Seq<char>,
)
    requires
        expand_one(inv, pat, depth) is Ok,
    ensures
        expand_one(inv, pat, depth)->Ok_0.contains(h) <==> exists|path: Seq<Seq<char>>| #[trigger]
            leads_to_host(inv, pat, path, h),
    decreases room(depth),
{
    patterns_mean_the_same_at_every_depth(inv, pat, depth);
    if !inv.groups.dom().contains(pat) {
        if expand_one(inv, pat, depth)->Ok_0.contains(h) {
            assert(leads_to_host(inv, pat, seq![pat], h));
        }
        if exists|path: Seq<Seq<char>>| #[trigger] leads_to_host(inv, pat, path, h) {
            let path = choose|path: Seq<Seq<char>>| #[trigger] leads_to_host(inv, pat, path, h);
            if path.len() > 1 {
                assert(inv.groups.dom().contains(path[0]));
            }
            assert(path.last() == pat);
        }
    } else {
        let members = inv.groups[pat];
        lemma_member_of_expansion(inv, members, depth + 1, h);
        if expand_one(inv, pat, depth)->Ok_0.contains(h) {
            let i: int = choose|i: int|
                0 <= i < members.len() && expand_one(inv, #[trigger] members[i], depth + 1) is Ok
                    && expand_one(inv, members[i], depth + 1)->Ok_0.contains(h);
            hosts_are_those_at_the_end_of_a_way_down(inv, members[i], depth + 1, h);
            let rest = choose|rest: Seq<Seq<char>>| #[trigger]
                leads_to_host(inv, members[i], rest, h);
            let path = seq![pat] + rest;
            assert forall|k: int| 0 <= k < path.len() - 1 implies inv.groups.dom().contains(
                #[trigger] path[k],
            ) && inv.groups[path[k]].contains(path[k + 1]) by {
                if k > 0 {
                    assert(path[k] == rest[k - 1] && path[k + 1] == rest[k]);
                } else {
                    assert(members.contains(members[i]));
                }
            }
            assert(path.last() == rest.last());
            assert(leads_to_host(inv, pat, path, h));
        }
        if exists|path: Seq<Seq<char>>| #[trigger] leads_to_host(inv, pat, path, h) {
            let path = choose|path: Seq<Seq<char>>| #[trigger] leads_to_host(inv, pat, path, h);
            if path.len() == 1 {
                assert(path.last() == pat);
            }
            assert(inv.groups.dom().contains(path[0]) && inv.groups[path[0]].contains(path[1]));
            let rest = path.drop_first();
            assert forall|k: int| 0 <= k < rest.len() - 1 implies inv.groups.dom().contains(
                #[trigger] rest[k],
            ) && inv.groups[rest[k]].contains(rest[k + 1]) by {
                assert(rest[k] == path[k + 1] && rest[k + 1] == path[k + 1 + 1]);
            }
            assert(rest.last() == path.last());
            assert(leads_to_host(inv, path[1], rest, h));
            let i: int = choose|i: int| 0 <= i < members.len() && members[i] == path[1];
            assert(expand_one(inv, members[i], depth + 1) is Ok);
            hosts_are_those_at_the_end_of_a_way_down(inv, path[1], depth + 1, h);
        }
    }
}

/// Dropping repetitions keeps every host, once, where it occurs first.
pub proof fn repetitions_are_dropped(hosts: Seq<Seq<char>>)
    ensures
        without_repetitions(hosts).no_duplicates(),
        forall|h: Seq<char>| #[trigger]
            without_repetitions(hosts).contains(h) <==> hosts.contains(h),
        forall|i: int, j: int|
            0 <= i < j < without_repetitions(hosts).len() ==> occurs_before(
                hosts,
                #[trigger] without_repetitions(hosts)[i],
                #[trigger] without_repetitions(hosts)[j],
            ),
    decreases hosts.len(),
{
    lemma_add_hosts(Seq::empty(), hosts);
    if hosts.len() > 0 {
        let front = hosts.drop_last();
        let before = without_repetitions(front);
        let after = without_repetitions(hosts);
        repetitions_are_dropped(front);
        assert forall|i: int, j: int| 0 <= i < j < after.len() implies occurs_before(
            hosts,
            #[trigger] after[i],
            #[trigger] after[j],
        ) by {
            assert(after[i] == before[i]);
            if j < before.len() {
                assert(after[j] == before[j]);
                assert(occurs_before(front, before[i], before[j]));
                let k: int = choose|k: int|
                    0 <= k < front.len() && #[trigger] front[k] == before[i] && !front.take(
                        k + 1,
                    ).contains(before[j]);
                assert(hosts[k] == before[i]);
                assert(hosts.take(k + 1) =~= front.take(k + 1));
            } else {
                assert(before.contains(before[i]));
                assert(front.contains(before[i]));
                let k: int = choose|k: int| 0 <= k < front.len() && front[k] == before[i];
                assert(hosts[k] == before[i]);
                assert(!front.contains(after[j]));
                let start = hosts.take(k + 1);
                if start.contains(after[j]) {
                    let m: int = choose|m: int| 0 <= m < start.len() && start[m] == after[j];
                    assert(front[m] == after[j]);
                }
            }
        }
    }
}

/// Whether `x` occurs in `hosts` before `y` occurs for the first time.
pub open spec fn occurs_before(hosts: Seq<Seq<char>>, x: Seq<char>, y: Seq<char>) -> bool {
    exists|k: int|
        0 <= k < hosts.len() && #[trigger] hosts[k] == x && !hosts.take(k + 1).contains(y)
}

/// Hosts that are added follow what is there: each of them that is new, once, in
/// order.
pub proof fn added_hosts_follow_what_is_there(
    out: Seq<Seq<char>>,
    hosts: Seq<Seq<char>>,
    host: Seq<char>,
)
    ensures
        add_hosts(out, hosts) == out + new_hosts(out, without_repetitions(hosts)),
        out.contains(host) ==> add_host(out, host) == out,
        !out.contains(host) ==> add_host(out, host) == out.push(host),
        without_repetitions(hosts) == add_hosts(Seq::empty(), hosts),
{
    lemma_add_is_append(out, hosts);
}

/// Patterns resolve to what they stand for, without repetitions; to nothing at all
/// they do not resolve, nor where one of them is refused.
pub proof fn resolution_drops_repetitions(inv: InventoryView, pats: Seq<Seq<char>>)
    ensures
        match expand_all(inv, pats, 0) {
            Ok(hosts) => if hosts.len() > 0 {
                resolution(inv, pats) == Ok::<Seq<Seq<char>>, ErrorView>(
                    without_repetitions(hosts),
                )
            } else {
                resolution(inv, pats) == Err::<Seq<Seq<char>>, ErrorView>(ErrorView::NoHosts)
            },
            Err(e) => resolution(inv, pats) == Err::<Seq<Seq<char>>, ErrorView>(e),
        },
{
}

/// A name of a `Host` line is taken for a host unless it holds a `*` or a `?`, or
/// begins with `!`.
pub proof fn host_names_are_no_patterns(name: Seq<char>)
    ensures
        is_concrete(name) <==> !name.contains('*') && !name.contains('?') && (name.len() == 0
            || name[0] != '!'),
{
}

/// The names of a line that are taken for hosts are, in order, those of its words
/// after the first that are no patterns, where the first is `Host` in whatever case;
/// every other line has none.
pub proof fn lines_name_the_words_after_host(line: Seq<char>)
    ensures
        ({
            let w = words_of(trimmed(line));
            line_hosts(line) == (if w.len() > 0 && same_but_ascii_case(w[0], "Host"@) {
                w.drop_first().filter(
                    |n: Seq<char>|
                        !n.contains('*') && !n.contains('?') && (n.len() == 0 || n[0] != '!'),
                )
            } else {
                Seq::empty()
            })
        }),
{
    let l = trimmed(line);
    let w = words_of(l);
    trimming_takes_the_white_space_at_the_ends(line);
    if w.len() > 0 && same_but_ascii_case(w[0], "Host"@) {
        reveal_strlit("Host");
        assert(l.len() > 0);
        assert(w[0].len() > 0 && w[0][0] == l[0]);
        assert(ascii_small(w[0][0]) == ascii_small("Host"@[0]));
        assert(l[0] != '#');
        lemma_filters_agree(w.drop_first());
    }
}

proof fn lemma_filters_agree(names: Seq<Seq<char>>)
    ensures
        concrete(names) == names.filter(
            |n: Seq<char>| !n.contains('*') && !n.contains('?') && (n.len() == 0 || n[0] != '!'),
        ),
    decreases names.len(),
{
    reveal(Seq::filter);
    if names.len() > 0 {
        lemma_filters_agree(names.drop_last());
    }
}

proof fn lemma_line_by_line(out: Seq<Seq<char>>, ls: Seq<Seq<char>>)
    ensures
        add_line_hosts(out, ls) == add_hosts(out, named_in(ls)),
    decreases ls.len(),
{
    if ls.len() > 0 {
        lemma_line_by_line(out, ls.drop_last());
        lemma_add_concat(out, named_in(ls.drop_last()), line_hosts(ls.last()));
    }
}

/// The hosts that the lines name, line by line, with repetitions.
pub open spec fn named_in(ls: Seq<Seq<char>>) -> Seq<Seq<char>>
    decreases ls.len(),
{
    if ls.len() == 0 {
        Seq::empty()
    } else {
        named_in(ls.drop_last()) + line_hosts(ls.last())
    }
}

/// The aliases of an ssh config are the hosts that its lines name, line by line,
/// each of them where it occurs first.
pub proof fn aliases_come_in_the_order_of_the_lines(text: Seq<char>)
    ensures
        config_hosts(text) == without_repetitions(named_in(lines_of(text))),
{
    lemma_line_by_line(Seq::empty(), lines_of(text));
}

/// Whether the definition at `i` is the last one of the group `name`.
pub open spec fn defines_last(defs: Seq<(String, GroupDef)>, name: Seq<char>, i: int) -> bool {
    &&& 0 <= i < defs.len()
    &&& defs[i].0@ == name
    &&& forall|j: int| i < j < defs.len() ==> (#[trigger] defs[j]).0@ != name
}

/// The groups are exactly those that are defined, each with the members that its
/// last definition lists, in either form.
pub proof fn the_last_definition_of_a_group_counts(defs: Seq<(String, GroupDef)>, name: Seq<char>)
    ensures
        group_map(defs).dom().contains(name) <==> exists|i: int| #[trigger]
            defines_last(defs, name, i),
        forall|i: int| #[trigger]
            defines_last(defs, name, i) ==> group_map(defs)[name] == (match defs[i].1 {
                GroupDef::List(l) => views(l@),
                GroupDef::Detailed { hosts } => views(hosts@),
            }),
    decreases defs.len(),
{
    if defs.len() > 0 {
        let n: int = defs.len() - 1;
        let front = defs.drop_last();
        the_last_definition_of_a_group_counts(front, name);
        if defs[n].0@ == name {
            assert(defines_last(defs, name, n));
            assert forall|i: int| #[trigger] defines_last(defs, name, i) implies i == n by {
                if i < n {
                    assert(defs[n].0@ != name);
                }
            }
        } else {
            assert forall|i: int| #[trigger]
                defines_last(defs, name, i) == defines_last(front, name, i) by {
                if defines_last(defs, name, i) {
                    assert(i < n);
                    assert forall|j: int| i < j < front.len() implies (#[trigger] front[j]).0@
                        != name by {
                        assert(defs[j].0@ != name);
                    }
                }
                if defines_last(front, name, i) {
                    assert forall|j: int| i < j < defs.len() implies (#[trigger] defs[j]).0@
                        != name by {
                        if j < n {
                            assert(front[j].0@ != name);
                        }
                    }
                }
            }
            if exists|i: int| #[trigger] defines_last(front, name, i) {
                let i: int = choose|i: int| #[trigger] defines_last(front, name, i);
                assert(defines_last(defs, name, i));
            }
        }
    }
}

} // verus!
