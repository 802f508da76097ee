//! Paths: where local and remote files lie.

use crate::text::{chars_of, last_index, string_of};
use vstd::prelude::*;

verus! {

/// Whether `s` begins with a `/`.
pub open spec fn starts_with_slash(s: Seq<char>) -> bool {
    s.len() > 0 && s[0] == '/'
}

/// The path of `part` under the directory `base`. A `part` that begins with `/`
/// is absolute and stands alone.
pub open spec fn joined_path(base: Seq<char>, part: Seq<char>) -> Seq<char> {
    if starts_with_slash(part) {
        part
    } else if base.len() == 0 || base.last() == '/' {
        base + part
    } else {
        base.push('/') + part
    }
}

/// The path of `part` under the directory `base`.
pub fn join_path(base: &str, part: &str) -> (r: String)
    ensures
        r@ == joined_path(base@, part@),
{
    let b: Vec<char> = chars_of(base);
    let p: Vec<char> = chars_of(part);
    if p.len() > 0 && p[0] == '/' {
        return part.to_owned();
    }
    let mut r: String = base.to_owned();
    if b.len() > 0 && b[b.len() - 1] != '/' {
        r.push('/');
    }
    r.append(part);
    r
}

/// Different names give different paths under one directory.
pub proof fn joined_paths_do_not_collide(base: Seq<char>, a: Seq<char>, b: Seq<char>)
    requires
        !starts_with_slash(a),
        !starts_with_slash(b),
        joined_path(base, a) == joined_path(base, b),
    ensures
        a == b,
{
    let head = if base.len() == 0 || base.last() == '/' {
        base
    } else {
        base.push('/')
    };
    assert(joined_path(base, a).skip(head.len() as int) =~= a);
    assert(joined_path(base, b).skip(head.len() as int) =~= b);
}

/// The ssh config of the user whose home is `home`.
pub fn default_ssh_config(home: &str) -> (r: String)
    ensures
        r@ == joined_path(joined_path(home@, ".ssh"@), "config"@),
{
    join_path(join_path(home, ".ssh").as_str(), "config")
}

/// The dispatch config of the user whose home is `home`.
pub fn default_dispatch_config(home: &str) -> (r: String)
    ensures
        r@ == joined_path(joined_path(home@, ".dispatch"@), "config.toml"@),
{
    join_path(join_path(home, ".dispatch").as_str(), "config.toml")
}

/// The directory that a remote (unix) path lies in: what stands before its last
/// `/`, or `/` itself for what lies there. `None` where there is no `/`.
pub open spec fn parent_of(path: Seq<char>) -> Option<Seq<char>> {
    let i: int = last_index(path, '/');
    if i < 0 {
        None
    } else if i == 0 {
        Some(seq!['/'])
    } else {
        Some(path.take(i))
    }
}

/// Parent directory of a remote (unix) path, e.g. `/a/b/c` -> `/a/b`.
pub fn remote_parent(path: &str) -> (r: Option<String>)
    ensures
        match r {
            Some(p) => parent_of(path@) == Some(p@),
            None => parent_of(path@) is None,
        },
{
    let cs: Vec<char> = chars_of(path);
    let mut n: usize = cs.len();
    assert(cs@.take(n as int) =~= cs@);
    while n > 0
        invariant
            n <= cs@.len(),
            cs@ == path@,
            last_index(cs@.take(n as int), '/') == last_index(path@, '/'),
        decreases n,
    {
        assert(cs@.take(n as int).last() == cs@[n - 1]);
        assert(cs@.take(n as int).drop_last() =~= cs@.take(n - 1));
        if cs[n - 1] == '/' {
            if n == 1 {
                proof {
                    reveal_strlit("/");
                    assert("/"@ =~= seq!['/']);
                }
                return Some("/".to_owned());
            }
            assert(cs@.subrange(0, n - 1) =~= path@.take(n - 1));
            return Some(string_of(&cs, 0, n - 1));
        }
        n = n - 1;
    }
    None
}

proof fn lemma_last_index(s: Seq<char>, c: char)
    ensures
        -1 <= last_index(s, c) < s.len(),
        last_index(s, c) >= 0 ==> s[last_index(s, c)] == c,
        forall|j: int| last_index(s, c) < j < s.len() ==> #[trigger] s[j] != c,
    decreases s.len(),
{
    if s.len() > 0 && s.last() != c {
        lemma_last_index(s.drop_last(), c);
        assert forall|j: int| last_index(s, c) < j < s.len() implies #[trigger] s[j] != c by {
            if j < s.len() - 1 {
                assert(s.drop_last()[j] == s[j]);
            }
        }
    }
}

/// A path is its parent, a `/` and a last part in which there is none; the `/` of
/// the root stands for both.
pub proof fn parent_and_last_part(path: Seq<char>)
    ensures
        parent_of(path) matches Some(dir) ==> exists|last: Seq<char>|
            !(#[trigger] last.contains('/')) && (path == dir.push('/') + last || dir == seq!['/']
                && path == dir + last),
        parent_of(path) is None <==> !path.contains('/'),
{
    lemma_last_index(path, '/');
    let i: int = last_index(path, '/');
    if i >= 0 {
        assert(path.contains('/'));
        let last = path.skip(i + 1);
        assert forall|j: int| 0 <= j < last.len() implies last[j] != '/' by {
            assert(path[i + 1 + j] != '/');
        }
        let dir = parent_of(path).unwrap();
        if i == 0 {
            assert(path =~= dir + last);
        } else {
            assert(path =~= dir.push('/') + last);
        }
        assert(!last.contains('/'));
    }
}

/// A path under a directory is the directory, one `/` and the part, whether or not
/// the directory ends with the `/`; under no directory it is the part, and an
/// absolute part stands alone.
pub proof fn parts_lie_under_their_directory(base: Seq<char>, part: Seq<char>)
    ensures
        part.len() > 0 && part[0] == '/' ==> joined_path(base, part) == part,
        part.len() == 0 || part[0] != '/' ==> {
            &&& joined_path(Seq::empty(), part) == part
            &&& joined_path(base + seq!['/'], part) == base + seq!['/'] + part
            &&& base.len() > 0 && base[base.len() - 1] != '/' ==> joined_path(base, part) == base
                + seq!['/'] + part
        },
{
    assert((base + seq!['/']).last() == '/');
    assert(base.push('/') =~= base + seq!['/']);
    assert(Seq::<char>::empty() + part =~= part);
}

/// The parent of a path is what stands before its last `/`, and the root where
/// nothing does; a path without a `/` has none.
pub proof fn parents_stand_before_the_last_slash(dir: Seq<char>, last: Seq<char>)
    requires
        !last.contains('/'),
    ensures
        parent_of(last) is None,
        parent_of(seq!['/'] + last) == Some(seq!['/']),
        dir.len() > 0 ==> parent_of(dir + seq!['/'] + last) == Some(dir),
{
    let path = dir + seq!['/'] + last;
    lemma_last_index(last, '/');
    lemma_last_index(path, '/');
    lemma_last_index(seq!['/'] + last, '/');
    let i: int = last_index(path, '/');
    assert(path[dir.len() as int] == '/');
    if i > dir.len() {
        assert(last[i - dir.len() - 1] == '/');
    }
    assert(i == dir.len());
    assert(path.take(i) =~= dir);
    let j: int = last_index(seq!['/'] + last, '/');
    assert((seq!['/'] + last)[0] == '/');
    if j > 0 {
        assert(last[j - 1] == '/');
    }
    let k: int = last_index(last, '/');
    if k >= 0 {
        assert(last[k] == '/');
    }
}

} // verus!
