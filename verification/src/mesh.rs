//! SSH passwordless mesh bootstrap: establish `user <-> user` trust across hosts.

use crate::number::{
    count_of, decimal, parse_count, written_counts_are_read_back, written_numbers_are_read_back,
};
use crate::shell::{quoted, quoting_is_read_back, read_word, shell_quote};
use crate::text::{
    after_prefix, is_white_space, joined, lines, lines_of, parts_are_joined_in_order, strip_prefix,
    trim, trimmed, views,
};
use vstd::prelude::*;

verus! {

// ---------------------------------------------------------------------------
// Scripts
// ---------------------------------------------------------------------------

/// How every script begins; the name of the user follows.
pub const SCRIPT_HEAD: &'static str = "set -u\nu=";

/// What follows the user in [`keygen_script`].
pub const KEYGEN_BODY: &'static str =
    r#"home=$(getent passwd "$u" 2>/dev/null | cut -d: -f6 || true)
if [ -z "$home" ]; then echo "mesh: user $u not found" >&2; exit 3; fi
install -d -m 700 "$home/.ssh"
if [ ! -f "$home/.ssh/id_ed25519" ]; then
  ssh-keygen -t ed25519 -N '' -f "$home/.ssh/id_ed25519" -C "$u@$(hostname)" >/dev/null
fi
chown -R "$u:$u" "$home/.ssh" 2>/dev/null || true
cat "$home/.ssh/id_ed25519.pub""#;

/// What follows the user in [`distribute_script`].
pub const DISTRIBUTE_BODY: &'static str =
    r#"home=$(getent passwd "$u" 2>/dev/null | cut -d: -f6 || true)
if [ -z "$home" ]; then echo "mesh: user $u not found" >&2; exit 3; fi
install -d -m 700 "$home/.ssh"
ak="$home/.ssh/authorized_keys"
touch "$ak"
added=0
while IFS= read -r key || [ -n "$key" ]; do
  [ -z "$key" ] && continue
  if ! grep -qxF -- "$key" "$ak"; then printf '%s\n' "$key" >> "$ak"; added=$((added+1)); fi
done
chmod 700 "$home/.ssh"
chmod 600 "$ak"
chown "$u:$u" "$home/.ssh" "$ak" 2>/dev/null || true
echo "MESH_ADDED=$added""#;

/// What stands between the user and the hosts in [`keyscan_script`].
pub const KEYSCAN_BODY: &'static str =
    r#"home=$(getent passwd "$u" 2>/dev/null | cut -d: -f6 || true)
if [ -z "$home" ]; then echo "mesh: user $u not found" >&2; exit 3; fi
install -d -m 700 "$home/.ssh"
kh="$home/.ssh/known_hosts"
touch "$kh"
rm -f "$kh".scan
for h in "#;

/// What follows the hosts in [`keyscan_script`].
pub const KEYSCAN_TAIL: &'static str =
    r#" do
  ssh-keyscan -t ed25519 "$h" 2>/dev/null >> "$kh".scan || true
done
added=0
if [ -f "$kh".scan ]; then
  while IFS= read -r line; do
    [ -z "$line" ] && continue
    if ! grep -qxF -- "$line" "$kh"; then printf '%s\n' "$line" >> "$kh"; added=$((added+1)); fi
  done < "$kh".scan
  rm -f "$kh".scan
fi
chmod 600 "$kh"
chown "$u:$u" "$kh" 2>/dev/null || true
echo "MESH_KH_ADDED=$added""#;

/// The script that does `body` for `user`.
pub open spec fn script_text(user: Seq<char>, body: Seq<char>) -> Seq<char> {
    SCRIPT_HEAD@ + quoted(user) + "\n"@ + body
}

fn script_for(user: &str, body: &str) -> (r: String)
    ensures
        r@ == script_text(user@, body@),
{
    SCRIPT_HEAD.to_owned().concat(shell_quote(user).as_str()).concat("\n").concat(body)
}

/// Shell script (phase 1): ensure the mesh user has an ed25519 keypair, then
/// print its public key on stdout. Honors sudo via the caller's Conn wrapping.
pub fn keygen_script(user: &str) -> (r: String)
    ensures
        r@ == script_text(user@, KEYGEN_BODY@),
{
    script_for(user, KEYGEN_BODY)
}

/// Shell script (phase 2): read public keys from stdin (one per line, the last with
/// or without a line end) and append any that are missing from the mesh user's
/// authorized_keys. Prints `MESH_ADDED=<n>`.
pub fn distribute_script(user: &str) -> (r: String)
    ensures
        r@ == script_text(user@, DISTRIBUTE_BODY@),
{
    script_for(user, DISTRIBUTE_BODY)
}

/// The hosts as shell words, with a space between each two.
pub open spec fn host_words(hosts: Seq<Seq<char>>) -> Seq<char> {
    joined(hosts.map_values(|h: Seq<char>| quoted(h)), seq![' '])
}

fn quote_hosts(hosts: &[String]) -> (r: String)
    ensures
        r@ == host_words(views(hosts@)),
{
    let mut r = String::new();
    let mut i: usize = 0;
    let ghost words = views(hosts@).map_values(|h: Seq<char>| quoted(h));
    assert(words.take(0).len() == 0);
    while i < hosts.len()
        invariant
            i <= hosts@.len(),
            words == views(hosts@).map_values(|h: Seq<char>| quoted(h)),
            r@ == joined(words.take(i as int), seq![' ']),
        decreases hosts@.len() - i,
    {
        let ghost before = r@;
        if i > 0 {
            r.push(' ');
        }
        r.append(shell_quote(hosts[i].as_str()).as_str());
        proof {
            assert(words.take(i + 1).drop_last() =~= words.take(i as int));
            assert(words.take(i + 1).last() == words[i as int]);
            assert(words[i as int] == quoted(hosts@[i as int]@));
            if i == 0 {
                assert(r@ =~= words[0]);
            } else {
                assert(r@ =~= before + seq![' '] + words[i as int]);
            }
        }
        i = i + 1;
    }
    assert(words.take(words.len() as int) =~= words);
    r
}

/// The body of [`keyscan_script`]: a loop over the hosts.
pub open spec fn keyscan_body(hosts: Seq<Seq<char>>) -> Seq<char> {
    KEYSCAN_BODY@ + host_words(hosts) + ";"@ + KEYSCAN_TAIL@
}

/// Shell script (phase 3): ssh-keyscan the given hosts (ed25519) and append any
/// new lines to the mesh user's known_hosts (existing content untouched).
/// Prints `MESH_KH_ADDED=<n>`.
pub fn keyscan_script(user: &str, hosts: &[String]) -> (r: String)
    ensures
        r@ == script_text(user@, keyscan_body(views(hosts@))),
{
    let body: String = KEYSCAN_BODY.to_owned().concat(quote_hosts(hosts).as_str()).concat(
        ";",
    ).concat(KEYSCAN_TAIL);
    script_for(user, body.as_str())
}

// ---------------------------------------------------------------------------
// Counts
// ---------------------------------------------------------------------------

/// What follows `prefix` in the first of `ls` that begins with it; white space
/// around a line does not count.
pub open spec fn first_tagged(ls: Seq<Seq<char>>, prefix: Seq<char>) -> Option<Seq<char>>
    decreases ls.len(),
{
    if ls.len() == 0 {
        None
    } else {
        match after_prefix(trimmed(ls[0]), prefix) {
            Some(rest) => Some(rest),
            None => first_tagged(ls.drop_first(), prefix),
        }
    }
}

/// The count after `tag=` in the first line that begins so; 0 where no line does,
/// or where what follows is no count.
pub open spec fn tagged_count(stdout: Seq<char>, tag: Seq<char>) -> usize {
    match first_tagged(lines_of(stdout), tag + "="@) {
        Some(rest) => match count_of(trimmed(rest)) {
            Some(n) => n,
            None => 0,
        },
        None => 0,
    }
}

/// Parse a `TAG=<integer>` line out of command stdout (e.g. `MESH_ADDED=3`).
/// Returns 0 if the tag is absent or unparseable.
pub fn parse_tagged_count(stdout: &str, tag: &str) -> (r: usize)
    ensures
        r == tagged_count(stdout@, tag@),
{
    let prefix: String = tag.to_owned().concat("=");
    let all: Vec<String> = lines(stdout);
    let ghost ls = views(all@);
    let mut i: usize = 0;
    assert(ls.skip(0) =~= ls);
    while i < all.len()
        invariant
            i <= all@.len(),
            ls == views(all@),
            ls == lines_of(stdout@),
            prefix@ == tag@ + "="@,
            first_tagged(ls.skip(i as int), prefix@) == first_tagged(ls, prefix@),
        decreases all@.len() - i,
    {
        let line: String = trim(all[i].as_str());
        assert(ls.skip(i as int)[0] == all@[i as int]@);
        assert(ls.skip(i as int).drop_first() =~= ls.skip(i + 1));
        if let Some(rest) = strip_prefix(line.as_str(), prefix.as_str()) {
            return match parse_count(trim(rest.as_str()).as_str()) {
                Some(n) => n,
                None => 0,
            };
        }
        i = i + 1;
    }
    0
}

// ---------------------------------------------------------------------------
// Laws
// ---------------------------------------------------------------------------

/// In every script the shell takes exactly the given user for the user, whatever
/// the name holds.
pub proof fn the_user_is_read_back(user: Seq<char>, body: Seq<char>)
    ensures
        read_word(script_text(user, body).skip(SCRIPT_HEAD@.len() as int), false) == Some(
            (user, "\n"@ + body),
        ),
{
    reveal_strlit("\n");
    let rest = "\n"@ + body;
    assert(rest[0] == '\n');
    quoting_is_read_back(user, rest);
    assert(script_text(user, body).skip(SCRIPT_HEAD@.len() as int) =~= quoted(user) + rest);
}

/// How a shell reads the words that `s` begins with, where single spaces stand
/// between them.
pub open spec fn read_list(s: Seq<char>) -> Option<Seq<Seq<char>>>
    decreases s.len(),
{
    match read_word(s, false) {
        None => None,
        Some((word, rest)) => if 0 < rest.len() <= s.len() && rest[0] == ' ' {
            match read_list(rest.drop_first()) {
                None => None,
                Some(words) => Some(seq![word] + words),
            }
        } else {
            Some(seq![word])
        },
    }
}

proof fn lemma_joined_front(parts: Seq<Seq<char>>, sep: Seq<char>)
    requires
        parts.len() >= 2,
    ensures
        joined(parts, sep) == parts[0] + sep + joined(parts.drop_first(), sep),
    decreases parts.len(),
{
    let front = parts.drop_last();
    let back = parts.drop_first();
    if parts.len() == 2 {
        assert(joined(front, sep) == parts[0]);
        assert(joined(back, sep) == parts[1]);
    } else {
        lemma_joined_front(front, sep);
        assert(front.drop_first() =~= back.drop_last());
        assert(joined(parts, sep) =~= parts[0] + sep + (joined(back.drop_last(), sep) + sep
            + parts.last()));
    }
}

proof fn lemma_host_words(hosts: Seq<Seq<char>>, rest: Seq<char>)
    requires
        hosts.len() > 0,
        rest.len() > 0,
        rest[0] == ';',
    ensures
        read_list(host_words(hosts) + rest) == Some(hosts),
    decreases hosts.len(),
{
    let words = hosts.map_values(|h: Seq<char>| quoted(h));
    let text = host_words(hosts) + rest;
    if hosts.len() == 1 {
        assert(text =~= quoted(hosts[0]) + rest);
        quoting_is_read_back(hosts[0], rest);
        assert(hosts =~= seq![hosts[0]]);
    } else {
        let others = hosts.drop_first();
        lemma_joined_front(words, seq![' ']);
        assert(words.drop_first() =~= others.map_values(|h: Seq<char>| quoted(h)));
        let after = seq![' '] + (host_words(others) + rest);
        assert(text =~= quoted(hosts[0]) + after);
        quoting_is_read_back(hosts[0], after);
        assert(after.drop_first() =~= host_words(others) + rest);
        lemma_host_words(others, rest);
        assert(hosts =~= seq![hosts[0]] + others);
    }
}

/// The loop of a key scan runs over exactly the given hosts, whatever their names
/// hold.
pub proof fn the_hosts_are_read_back(hosts: Seq<Seq<char>>)
    requires
        hosts.len() > 0,
    ensures
        read_list(keyscan_body(hosts).skip(KEYSCAN_BODY@.len() as int)) == Some(hosts),
{
    reveal_strlit(";");
    let rest = ";"@ + KEYSCAN_TAIL@;
    assert(rest[0] == ';');
    lemma_host_words(hosts, rest);
    assert(keyscan_body(hosts).skip(KEYSCAN_BODY@.len() as int) =~= host_words(hosts) + rest);
}

proof fn lemma_trimmed_is_kept(s: Seq<char>)
    requires
        s.len() > 0,
        !is_white_space(s[0]),
        !is_white_space(s.last()),
    ensures
        trimmed(s) == s,
{
}

/// A count that a script prints as `tag=<n>` is read back, where no line before
/// it has the tag.
pub proof fn printed_counts_are_read_back(stdout: Seq<char>, tag: Seq<char>, n: usize, i: int)
    requires
        tag.len() == 0 || !is_white_space(tag[0]),
        0 <= i < lines_of(stdout).len(),
        lines_of(stdout)[i] == tag + "="@ + decimal(n as int),
        forall|j: int|
            0 <= j < i ==> after_prefix(trimmed(#[trigger] lines_of(stdout)[j]), tag + "="@)
                is None,
    ensures
        tagged_count(stdout, tag) == n,
{
    reveal_strlit("=");
    let ls = lines_of(stdout);
    let prefix = tag + "="@;
    let digits = decimal(n as int);
    let line = prefix + digits;
    written_counts_are_read_back(n);
    written_numbers_are_read_back(n as nat, 10);
    assert(digits.len() > 0);
    assert('0' <= digits[0] <= '9');
    assert('0' <= digits[digits.len() - 1] <= '9');
    assert(line[0] == (if tag.len() == 0 { '=' } else { tag[0] }));
    assert(line.last() == digits[digits.len() - 1]);
    lemma_trimmed_is_kept(line);
    lemma_trimmed_is_kept(digits);
    assert(line.take(prefix.len() as int) =~= prefix);
    assert(line.skip(prefix.len() as int) =~= digits);
    lemma_first_tagged(ls, prefix, i);
}

proof fn lemma_first_tagged(ls: Seq<Seq<char>>, prefix: Seq<char>, i: int)
    requires
        0 <= i < ls.len(),
        after_prefix(trimmed(ls[i]), prefix) is Some,
        forall|j: int| 0 <= j < i ==> after_prefix(trimmed(#[trigger] ls[j]), prefix) is None,
    ensures
        first_tagged(ls, prefix) == after_prefix(trimmed(ls[i]), prefix),
    decreases i,
{
    if i > 0 {
        let rest = ls.drop_first();
        assert(after_prefix(trimmed(ls[0]), prefix) is None);
        assert forall|j: int| 0 <= j < i - 1 implies after_prefix(
            trimmed(#[trigger] rest[j]),
            prefix,
        ) is None by {
            assert(rest[j] == ls[j + 1]);
        }
        lemma_first_tagged(rest, prefix, i - 1);
    }
}

/// A script begins with the quoted user, on a line of its own, and goes on with its
/// body, whoever the user is.
pub proof fn scripts_differ_in_the_user_only(user: Seq<char>, body: Seq<char>)
    ensures
        script_text(user, body) == SCRIPT_HEAD@ + quoted(user) + "\n"@ + body,
{
}

/// The hosts of a key scan are quoted one by one, in order, with a space between
/// each two, and a `;` ends the list.
pub proof fn scanned_hosts_are_listed_in_order(hosts: Seq<Seq<char>>, last: Seq<char>)
    ensures
        host_words(Seq::empty()).len() == 0,
        host_words(hosts.push(last)) == (if hosts.len() == 0 {
            quoted(last)
        } else {
            host_words(hosts) + seq![' '] + quoted(last)
        }),
        keyscan_body(hosts) == KEYSCAN_BODY@ + host_words(hosts) + ";"@ + KEYSCAN_TAIL@,
{
    let words = hosts.map_values(|h: Seq<char>| quoted(h));
    assert(hosts.push(last).map_values(|h: Seq<char>| quoted(h)) =~= words.push(quoted(last)));
    assert(Seq::<Seq<char>>::empty().map_values(|h: Seq<char>| quoted(h)) =~= Seq::<
        Seq<char>,
    >::empty());
    parts_are_joined_in_order(words, quoted(last), seq![' ']);
}

proof fn lemma_untagged(ls: Seq<Seq<char>>, prefix: Seq<char>)
    requires
        forall|j: int|
            0 <= j < ls.len() ==> after_prefix(trimmed(#[trigger] ls[j]), prefix) is None,
    ensures
        first_tagged(ls, prefix) is None,
    decreases ls.len(),
{
    if ls.len() > 0 {
        let rest = ls.drop_first();
        assert(after_prefix(trimmed(ls[0]), prefix) is None);
        assert forall|j: int| 0 <= j < rest.len() implies after_prefix(
            trimmed(#[trigger] rest[j]),
            prefix,
        ) is None by {
            assert(rest[j] == ls[j + 1]);
        }
        lemma_untagged(rest, prefix);
    }
}

/// The count is 0 where no line has the tag. Otherwise the first line that has it
/// decides: the count is what follows there, or 0 where that is no count.
pub proof fn the_first_tagged_line_decides(stdout: Seq<char>, tag: Seq<char>, i: int)
    requires
        0 <= i <= lines_of(stdout).len(),
        forall|j: int|
            0 <= j < i ==> after_prefix(trimmed(#[trigger] lines_of(stdout)[j]), tag + "="@)
                is None,
    ensures
        i == lines_of(stdout).len() ==> tagged_count(stdout, tag) == 0,
        i < lines_of(stdout).len() ==> (after_prefix(trimmed(lines_of(stdout)[i]), tag + "="@)
            matches Some(rest) ==> {
            &&& count_of(trimmed(rest)) matches Some(n) ==> tagged_count(stdout, tag) == n
            &&& count_of(trimmed(rest)) is None ==> tagged_count(stdout, tag) == 0
        }),
{
    let ls = lines_of(stdout);
    if i == ls.len() {
        lemma_untagged(ls, tag + "="@);
    } else if after_prefix(trimmed(ls[i]), tag + "="@) is Some {
        lemma_first_tagged(ls, tag + "="@, i);
    }
}

} // verus!
