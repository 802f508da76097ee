//! Text: the operations on strings that the rest of the library is written with.
//!
//! A string is modelled as its sequence of characters. Each operation has a
//! specification function here and an executable function that computes it.

use vstd::prelude::*;

verus! {

// ---------------------------------------------------------------------------
// Characters
// ---------------------------------------------------------------------------

/// The characters with the Unicode property `White_Space`.
pub open spec fn is_white_space(c: char) -> bool {
    let u: u32 = c as u32;
    ||| 0x9 <= u <= 0xd
    ||| u == 0x20
    ||| u == 0x85
    ||| u == 0xa0
    ||| u == 0x1680
    ||| 0x2000 <= u <= 0x200a
    ||| u == 0x2028
    ||| u == 0x2029
    ||| u == 0x202f
    ||| u == 0x205f
    ||| u == 0x3000
}

/// Whether `c` is white space.
pub fn white_space(c: char) -> (r: bool)
    ensures
        r == is_white_space(c),
{
    let u: u32 = c as u32;
    (0x9 <= u && u <= 0xd) || u == 0x20 || u == 0x85 || u == 0xa0 || u == 0x1680 || (0x2000 <= u
        && u <= 0x200a) || u == 0x2028 || u == 0x2029 || u == 0x202f || u == 0x205f || u == 0x3000
}

/// `c`, or the small letter of the capital `c` where `c` is an ASCII capital.
pub open spec fn ascii_small(c: char) -> u32 {
    let u: u32 = c as u32;
    if 0x41 <= u <= 0x5a {
        (u + 0x20) as u32
    } else {
        u
    }
}

fn small(c: char) -> (r: u32)
    ensures
        r == ascii_small(c),
{
    let u: u32 = c as u32;
    if 0x41 <= u && u <= 0x5a {
        u + 0x20
    } else {
        u
    }
}

// ---------------------------------------------------------------------------
// From strings to characters and back
// ---------------------------------------------------------------------------

/// `String::push` appends the one character that it is given.
pub assume_specification[ String::push ](s: &mut String, c: char)
    ensures
        final(s)@ == old(s)@.push(c),
;

/// The characters of `s`, in order.
pub fn chars_of(s: &str) -> (r: Vec<char>)
    ensures
        r@ == s@,
{
    let mut r: Vec<char> = Vec::new();
    for c in it: s.chars()
        invariant
            r@ == s@.take(it.index()),
            it.seq() == s@,
    {
        r.push(c);
    }
    r
}

/// The string of the characters `cs[from..to]`.
pub fn string_of(cs: &Vec<char>, from: usize, to: usize) -> (r: String)
    requires
        from <= to <= cs@.len(),
    ensures
        r@ == cs@.subrange(from as int, to as int),
{
    let mut r = String::new();
    let mut i: usize = from;
    while i < to
        invariant
            from <= i <= to <= cs@.len(),
            r@ == cs@.subrange(from as int, i as int),
        decreases to - i,
    {
        r.push(cs[i]);
        i = i + 1;
        assert(cs@.subrange(from as int, i as int) =~= cs@.subrange(from as int, i - 1).push(
            cs@[i - 1],
        ));
    }
    r
}

/// Whether `a` and `b` hold the same characters.
pub fn same(a: &str, b: &str) -> (r: bool)
    ensures
        r == (a@ == b@),
{
    let x: Vec<char> = chars_of(a);
    let y: Vec<char> = chars_of(b);
    if x.len() != y.len() {
        return false;
    }
    let mut i: usize = 0;
    while i < x.len()
        invariant
            i <= x@.len(),
            x@ == a@,
            y@ == b@,
            x@.len() == y@.len(),
            forall|j: int| 0 <= j < i ==> x@[j] == y@[j],
        decreases x@.len() - i,
    {
        if x[i] != y[i] {
            assert(a@[i as int] != b@[i as int]);
            return false;
        }
        i = i + 1;
    }
    assert(a@ =~= b@);
    true
}

/// Whether the character `c` occurs in `s`.
pub fn has_char(s: &str, c: char) -> (r: bool)
    ensures
        r == s@.contains(c),
{
    for d in it: s.chars()
        invariant
            it.seq() == s@,
            forall|j: int| 0 <= j < it.index() ==> s@[j] != c,
    {
        if d == c {
            return true;
        }
    }
    false
}

// ---------------------------------------------------------------------------
// Trimming
// ---------------------------------------------------------------------------

/// `s` without the white space that it begins with.
pub open spec fn trim_start(s: Seq<char>) -> Seq<char>
    decreases s.len(),
{
    if s.len() > 0 && is_white_space(s[0]) {
        trim_start(s.drop_first())
    } else {
        s
    }
}

/// `s` without the white space that it ends with.
pub open spec fn trim_end(s: Seq<char>) -> Seq<char>
    decreases s.len(),
{
    if s.len() > 0 && is_white_space(s.last()) {
        trim_end(s.drop_last())
    } else {
        s
    }
}

/// `s` without the white space at either end.
pub open spec fn trimmed(s: Seq<char>) -> Seq<char> {
    trim_end(trim_start(s))
}

/// `s` without the white space at either end.
pub fn trim(s: &str) -> (r: String)
    ensures
        r@ == trimmed(s@),
{
    let cs: Vec<char> = chars_of(s);
    let mut from: usize = 0;
    assert(cs@.skip(0) =~= cs@);
    while from < cs.len() && white_space(cs[from])
        invariant
            from <= cs@.len(),
            trim_start(cs@.skip(from as int)) == trim_start(cs@),
        decreases cs@.len() - from,
    {
        assert(cs@.skip(from as int).drop_first() =~= cs@.skip(from + 1));
        from = from + 1;
    }
    let mut to: usize = cs.len();
    assert(cs@.skip(from as int) =~= cs@.subrange(from as int, to as int));
    while to > from && white_space(cs[to - 1])
        invariant
            from <= to <= cs@.len(),
            trim_end(cs@.subrange(from as int, to as int)) == trim_end(cs@.skip(from as int)),
        decreases to,
    {
        assert(cs@.subrange(from as int, to as int).drop_last() =~= cs@.subrange(
            from as int,
            to - 1,
        ));
        to = to - 1;
    }
    string_of(&cs, from, to)
}

// ---------------------------------------------------------------------------
// Cutting into pieces
// ---------------------------------------------------------------------------

/// The position of the first `c` in `s`, or the length of `s` where there is none.
pub open spec fn first_index(s: Seq<char>, c: char) -> nat
    decreases s.len(),
{
    if s.len() == 0 || s[0] == c {
        0
    } else {
        first_index(s.drop_first(), c) + 1
    }
}

/// The position of the last `c` in `s`, or -1 where there is none.
pub open spec fn last_index(s: Seq<char>, c: char) -> int
    decreases s.len(),
{
    if s.len() == 0 {
        -1
    } else if s.last() == c {
        s.len() - 1
    } else {
        last_index(s.drop_last(), c)
    }
}

/// `line` without the one carriage return that it may end with.
pub open spec fn without_return(line: Seq<char>) -> Seq<char> {
    if line.len() > 0 && line.last() == '\r' {
        line.drop_last()
    } else {
        line
    }
}

/// The lines of `s`. A line ends at `\n`, at `\r\n` or at the end of `s`; what
/// ends it is not part of it, and nothing follows a last `\n`.
pub open spec fn lines_of(s: Seq<char>) -> Seq<Seq<char>>
    decreases s.len(),
{
    if s.len() == 0 {
        Seq::empty()
    } else {
        let n: nat = first_index(s, '\n');
        if n >= s.len() {
            seq![s]
        } else {
            seq![without_return(s.take(n as int))] + lines_of(s.skip(n as int + 1))
        }
    }
}

/// How many characters `s` begins with that are not white space.
pub open spec fn word_length(s: Seq<char>) -> nat
    decreases s.len(),
{
    if s.len() == 0 || is_white_space(s[0]) {
        0
    } else {
        word_length(s.drop_first()) + 1
    }
}

/// The words of `s`: its longest stretches without white space, in order.
pub open spec fn words_of(s: Seq<char>) -> Seq<Seq<char>>
    decreases s.len(),
{
    if s.len() == 0 {
        Seq::empty()
    } else if is_white_space(s[0]) {
        words_of(s.drop_first())
    } else {
        let n: nat = word_length(s);
        if n >= s.len() {
            seq![s]
        } else {
            seq![s.take(n as int)] + words_of(s.skip(n as int))
        }
    }
}

/// What the strings of `v` hold.
pub open spec fn views(v: Seq<String>) -> Seq<Seq<char>> {
    v.map_values(|s: String| s@)
}

/// The end of the line that starts at `from`.
fn line_end(cs: &Vec<char>, from: usize) -> (to: usize)
    requires
        from <= cs@.len(),
    ensures
        from <= to <= cs@.len(),
        to - from == first_index(cs@.skip(from as int), '\n'),
        to < cs@.len() ==> cs@[to as int] == '\n',
{
    let mut to: usize = from;
    while to < cs.len() && cs[to] != '\n'
        invariant
            from <= to <= cs@.len(),
            first_index(cs@.skip(from as int), '\n') == to - from + first_index(
                cs@.skip(to as int),
                '\n',
            ),
        decreases cs@.len() - to,
    {
        assert(cs@.skip(to as int).drop_first() =~= cs@.skip(to + 1));
        to = to + 1;
    }
    to
}

/// The lines of `s`.
pub fn lines(s: &str) -> (r: Vec<String>)
    ensures
        views(r@) == lines_of(s@),
{
    let cs: Vec<char> = chars_of(s);
    let mut r: Vec<String> = Vec::new();
    let mut from: usize = 0;
    assert(cs@.skip(0) =~= cs@);
    assert(views(r@) + lines_of(cs@) =~= lines_of(cs@));
    while from < cs.len()
        invariant
            from <= cs@.len(),
            views(r@) + lines_of(cs@.skip(from as int)) == lines_of(cs@),
        decreases cs@.len() - from,
    {
        let to: usize = line_end(&cs, from);
        let ghost rest = cs@.skip(from as int);
        let ghost before = views(r@);
        if to == cs.len() {
            let line: String = string_of(&cs, from, to);
            assert(line@ =~= rest);
            r.push(line);
            from = to;
            assert(views(r@) =~= before.push(line@));
            assert(cs@.skip(from as int).len() == 0);
            assert(lines_of(rest) =~= seq![line@]);
            assert(views(r@) + lines_of(cs@.skip(from as int)) =~= before + lines_of(rest));
        } else {
            let mut stop: usize = to;
            if to > from && cs[to - 1] == '\r' {
                stop = to - 1;
            }
            let line: String = string_of(&cs, from, stop);
            assert(rest.take(to - from) =~= cs@.subrange(from as int, to as int));
            assert(line@ =~= without_return(rest.take(to - from)));
            assert(rest.skip(to - from + 1) =~= cs@.skip(to + 1));
            r.push(line);
            from = to + 1;
            assert(views(r@) =~= before.push(line@));
            assert(views(r@) + lines_of(cs@.skip(from as int)) =~= before + lines_of(rest));
        }
    }
    assert(cs@.skip(from as int).len() == 0);
    assert(views(r@) + lines_of(cs@.skip(from as int)) =~= views(r@));
    r
}

/// The end of the word that starts at `from`.
fn word_end(cs: &Vec<char>, from: usize) -> (to: usize)
    requires
        from <= cs@.len(),
    ensures
        from <= to <= cs@.len(),
        to - from == word_length(cs@.skip(from as int)),
{
    let mut to: usize = from;
    while to < cs.len() && !white_space(cs[to])
        invariant
            from <= to <= cs@.len(),
            word_length(cs@.skip(from as int)) == to - from + word_length(cs@.skip(to as int)),
        decreases cs@.len() - to,
    {
        assert(cs@.skip(to as int).drop_first() =~= cs@.skip(to + 1));
        to = to + 1;
    }
    to
}

/// The words of `s`.
pub fn words(s: &str) -> (r: Vec<String>)
    ensures
        views(r@) == words_of(s@),
{
    let cs: Vec<char> = chars_of(s);
    let mut r: Vec<String> = Vec::new();
    let mut from: usize = 0;
    assert(cs@.skip(0) =~= cs@);
    assert(views(r@) + words_of(cs@) =~= words_of(cs@));
    while from < cs.len()
        invariant
            from <= cs@.len(),
            views(r@) + words_of(cs@.skip(from as int)) == words_of(cs@),
        decreases cs@.len() - from,
    {
        let ghost rest = cs@.skip(from as int);
        let ghost before = views(r@);
        if white_space(cs[from]) {
            assert(rest.drop_first() =~= cs@.skip(from + 1));
            from = from + 1;
        } else {
            let to: usize = word_end(&cs, from);
            let word: String = string_of(&cs, from, to);
            assert(word@ =~= rest.take(to - from));
            assert(rest.skip(to - from) =~= cs@.skip(to as int));
            r.push(word);
            assert(views(r@) =~= before.push(word@));
            assert(rest.take(rest.len() as int) =~= rest);
            assert(views(r@) + words_of(cs@.skip(to as int)) =~= before + words_of(rest));
            from = to;
        }
    }
    assert(cs@.skip(from as int).len() == 0);
    assert(views(r@) + words_of(cs@.skip(from as int)) =~= views(r@));
    r
}

/// What follows `prefix` in `s`, where `s` begins with it.
pub open spec fn after_prefix(s: Seq<char>, prefix: Seq<char>) -> Option<Seq<char>> {
    if prefix.len() <= s.len() && s.take(prefix.len() as int) == prefix {
        Some(s.skip(prefix.len() as int))
    } else {
        None
    }
}

/// What follows `prefix` in `s`, where `s` begins with it.
pub fn strip_prefix(s: &str, prefix: &str) -> (r: Option<String>)
    ensures
        match r {
            Some(rest) => after_prefix(s@, prefix@) == Some(rest@),
            None => after_prefix(s@, prefix@) is None,
        },
{
    let cs: Vec<char> = chars_of(s);
    let ps: Vec<char> = chars_of(prefix);
    if ps.len() > cs.len() {
        return None;
    }
    let mut i: usize = 0;
    while i < ps.len()
        invariant
            i <= ps@.len() <= cs@.len(),
            cs@ == s@,
            ps@ == prefix@,
            forall|j: int| 0 <= j < i ==> cs@[j] == ps@[j],
        decreases ps@.len() - i,
    {
        if cs[i] != ps[i] {
            assert(s@.take(ps@.len() as int)[i as int] != prefix@[i as int]);
            return None;
        }
        i = i + 1;
    }
    assert(s@.take(ps@.len() as int) =~= prefix@);
    let rest: String = string_of(&cs, ps.len(), cs.len());
    assert(rest@ =~= s@.skip(ps@.len() as int));
    Some(rest)
}

/// Whether `a` and `b` differ at most in the case of ASCII letters.
pub open spec fn same_but_ascii_case(a: Seq<char>, b: Seq<char>) -> bool {
    &&& a.len() == b.len()
    &&& forall|i: int| 0 <= i < a.len() ==> ascii_small(#[trigger] a[i]) == ascii_small(b[i])
}

/// Whether `a` and `b` differ at most in the case of ASCII letters.
pub fn same_ignoring_case(a: &str, b: &str) -> (r: bool)
    ensures
        r == same_but_ascii_case(a@, b@),
{
    let x: Vec<char> = chars_of(a);
    let y: Vec<char> = chars_of(b);
    if x.len() != y.len() {
        return false;
    }
    let mut i: usize = 0;
    while i < x.len()
        invariant
            i <= x@.len(),
            x@ == a@,
            y@ == b@,
            x@.len() == y@.len(),
            forall|j: int| 0 <= j < i ==> ascii_small(#[trigger] a@[j]) == ascii_small(b@[j]),
        decreases x@.len() - i,
    {
        if small(x[i]) != small(y[i]) {
            assert(ascii_small(a@[i as int]) != ascii_small(b@[i as int]));
            return false;
        }
        i = i + 1;
    }
    true
}

/// `s` without its white space.
pub open spec fn without_white_space(s: Seq<char>) -> Seq<char> {
    s.filter(|c: char| !is_white_space(c))
}

/// `s` without its white space.
pub fn squeeze(s: &str) -> (r: String)
    ensures
        r@ == without_white_space(s@),
{
    let mut r = String::new();
    for c in it: s.chars()
        invariant
            it.seq() == s@,
            r@ == without_white_space(s@.take(it.index())),
    {
        proof {
            let k: int = it.index();
            assert(s@.take(k + 1).drop_last() =~= s@.take(k));
            reveal(Seq::filter);
        }
        if !white_space(c) {
            r.push(c);
        }
    }
    assert(s@.take(s@.len() as int) =~= s@);
    r
}

/// `parts`, with `sep` between each two neighbours.
pub open spec fn joined(parts: Seq<Seq<char>>, sep: Seq<char>) -> Seq<char>
    decreases parts.len(),
{
    if parts.len() == 0 {
        Seq::empty()
    } else if parts.len() == 1 {
        parts[0]
    } else {
        joined(parts.drop_last(), sep) + sep + parts.last()
    }
}

// ---------------------------------------------------------------------------
// Laws
// ---------------------------------------------------------------------------

/// Whether `s` is made of white space alone.
pub open spec fn all_white(s: Seq<char>) -> bool {
    forall|i: int| 0 <= i < s.len() ==> is_white_space(#[trigger] s[i])
}

/// Whether there is no white space in `s`.
pub open spec fn no_white(s: Seq<char>) -> bool {
    forall|i: int| 0 <= i < s.len() ==> !is_white_space(#[trigger] s[i])
}

proof fn lemma_trim_start(s: Seq<char>) -> (a: Seq<char>)
    ensures
        s == a + trim_start(s),
        all_white(a),
        trim_start(s).len() > 0 ==> !is_white_space(trim_start(s)[0]),
    decreases s.len(),
{
    if s.len() > 0 && is_white_space(s[0]) {
        let a = lemma_trim_start(s.drop_first());
        let t = trim_start(s);
        assert(s =~= seq![s[0]] + s.drop_first());
        assert(seq![s[0]] + (a + t) =~= (seq![s[0]] + a) + t);
        seq![s[0]] + a
    } else {
        assert(s =~= Seq::<char>::empty() + s);
        Seq::empty()
    }
}

proof fn lemma_trim_end(s: Seq<char>) -> (b: Seq<char>)
    ensures
        s == trim_end(s) + b,
        all_white(b),
        trim_end(s).len() > 0 ==> !is_white_space(trim_end(s).last()),
        trim_end(s).len() > 0 ==> trim_end(s)[0] == s[0],
    decreases s.len(),
{
    if s.len() > 0 && is_white_space(s.last()) {
        let b = lemma_trim_end(s.drop_last());
        let t = trim_end(s);
        assert(s =~= s.drop_last().push(s.last()));
        assert((t + b).push(s.last()) =~= t + b.push(s.last()));
        b.push(s.last())
    } else {
        assert(s =~= s + Seq::<char>::empty());
        Seq::empty()
    }
}

/// Trimming takes away white space at the two ends, all of it, and nothing else.
pub proof fn trimming_takes_the_white_space_at_the_ends(s: Seq<char>)
    ensures
        exists|a: Seq<char>, b: Seq<char>| #[trigger]
            all_white(a) && #[trigger] all_white(b) && s == a + trimmed(s) + b,
        trimmed(s).len() > 0 ==> !is_white_space(trimmed(s)[0]) && !is_white_space(
            trimmed(s).last(),
        ),
{
    let a = lemma_trim_start(s);
    let b = lemma_trim_end(trim_start(s));
    assert(all_white(a) && all_white(b) && s =~= a + trimmed(s) + b);
}

proof fn lemma_first_index(a: Seq<char>, c: char, b: Seq<char>)
    requires
        !a.contains(c),
    ensures
        first_index(a + seq![c] + b, c) == a.len(),
        first_index(a, c) == a.len(),
    decreases a.len(),
{
    let s = a + seq![c] + b;
    if a.len() > 0 {
        assert(a.contains(a[0]));
        assert forall|i: int| 0 <= i < a.drop_first().len() implies a.drop_first()[i] != c by {
            assert(a.contains(a[i + 1]));
        }
        lemma_first_index(a.drop_first(), c, b);
        assert(s.drop_first() =~= a.drop_first() + seq![c] + b);
    }
}

/// A line goes on up to the next line feed and loses the carriage return before it;
/// the lines after it are those of the rest. Text without a line feed is one line,
/// or none where it is empty.
pub proof fn lines_end_at_line_feeds(a: Seq<char>, b: Seq<char>)
    requires
        !a.contains('\n'),
    ensures
        a.len() == 0 ==> lines_of(a).len() == 0,
        a.len() > 0 ==> lines_of(a) == seq![a],
        lines_of(a + seq!['\n'] + b) == seq![
            if a.len() > 0 && a[a.len() - 1] == '\r' {
                a.take(a.len() - 1)
            } else {
                a
            },
        ] + lines_of(b),
{
    lemma_first_index(a, '\n', b);
    let s = a + seq!['\n'] + b;
    assert(s.take(a.len() as int) =~= a);
    assert(s.skip(a.len() as int + 1) =~= b);
}

proof fn lemma_word_length(w: Seq<char>, b: Seq<char>)
    requires
        no_white(w),
        b.len() == 0 || is_white_space(b[0]),
    ensures
        word_length(w + b) == w.len(),
    decreases w.len(),
{
    if w.len() > 0 {
        assert((w + b).drop_first() =~= w.drop_first() + b);
        lemma_word_length(w.drop_first(), b);
    } else {
        assert(w + b =~= b);
    }
}

/// A word is a longest stretch without white space: white space before it does not
/// count, and the words after it are those of the rest.
pub proof fn words_are_what_stands_between_white_space(a: Seq<char>, w: Seq<char>, b: Seq<char>)
    requires
        all_white(a),
        no_white(w),
        b.len() == 0 || is_white_space(b[0]),
    ensures
        words_of(a).len() == 0,
        w.len() > 0 ==> words_of(a + w + b) == seq![w] + words_of(b),
    decreases a.len(),
{
    if a.len() > 0 {
        words_are_what_stands_between_white_space(a.drop_first(), w, b);
        assert((a + w + b).drop_first() =~= a.drop_first() + w + b);
    } else if w.len() > 0 {
        let s = a + w + b;
        assert(s =~= w + b);
        lemma_word_length(w, b);
        assert(!is_white_space(s[0])) by {
            assert(s[0] == w[0]);
        }
        if b.len() == 0 {
            assert(s =~= w);
            assert(seq![w] + words_of(b) =~= seq![w]);
        } else {
            assert(s.take(w.len() as int) =~= w);
            assert(s.skip(w.len() as int) =~= b);
        }
    }
}

/// A prefix is taken off exactly where it is there.
pub proof fn prefixes_are_taken_off(prefix: Seq<char>, rest: Seq<char>, s: Seq<char>)
    ensures
        after_prefix(prefix + rest, prefix) == Some(rest),
        after_prefix(s, prefix) matches Some(r) ==> s == prefix + r,
{
    assert((prefix + rest).take(prefix.len() as int) =~= prefix);
    assert((prefix + rest).skip(prefix.len() as int) =~= rest);
    if after_prefix(s, prefix) is Some {
        assert(s =~= s.take(prefix.len() as int) + s.skip(prefix.len() as int));
    }
}

/// Whether `a` and `b` are the same, or the capital and the small form of one of
/// the 26 ASCII letters.
pub open spec fn same_letter(a: char, b: char) -> bool {
    ||| a == b
    ||| 'A' <= a <= 'Z' && b as int == a as int + 32
    ||| 'A' <= b <= 'Z' && a as int == b as int + 32
}

proof fn lemma_same_letter(a: char, b: char)
    ensures
        ascii_small(a) == ascii_small(b) <==> same_letter(a, b),
{
}

/// Strings that are the same but for case have the same letters at every place.
pub proof fn case_is_that_of_ascii_letters(a: Seq<char>, b: Seq<char>)
    ensures
        same_but_ascii_case(a, b) <==> a.len() == b.len() && forall|i: int|
            0 <= i < a.len() ==> same_letter(#[trigger] a[i], b[i]),
{
    if same_but_ascii_case(a, b) {
        assert forall|i: int| 0 <= i < a.len() implies same_letter(#[trigger] a[i], b[i]) by {
            assert(ascii_small(a[i]) == ascii_small(b[i]));
            lemma_same_letter(a[i], b[i]);
        }
    }
    if a.len() == b.len() && forall|i: int|
        0 <= i < a.len() ==> same_letter(#[trigger] a[i], b[i]) {
        assert forall|i: int| 0 <= i < a.len() implies ascii_small(#[trigger] a[i]) == ascii_small(
            b[i],
        ) by {
            assert(same_letter(a[i], b[i]));
            lemma_same_letter(a[i], b[i]);
        }
    }
}

/// Squeezing takes away every white space character and leaves every other one, in
/// order.
pub proof fn squeezing_takes_all_white_space(a: Seq<char>, c: char, b: Seq<char>)
    ensures
        without_white_space(Seq::<char>::empty()) == Seq::<char>::empty(),
        without_white_space(seq![c]) == (if is_white_space(c) {
            Seq::<char>::empty()
        } else {
            seq![c]
        }),
        without_white_space(a + b) == without_white_space(a) + without_white_space(b),
    decreases b.len(),
{
    reveal(Seq::filter);
    let none = Seq::<char>::empty();
    assert(seq![c].drop_last() =~= none);
    assert(none.filter(|x: char| !is_white_space(x)) =~= none);
    assert(none.push(c) =~= seq![c]);
    if b.len() == 0 {
        assert(a + b =~= a);
        assert(b =~= none);
        assert(without_white_space(a) + none =~= without_white_space(a));
    } else {
        squeezing_takes_all_white_space(a, c, b.drop_last());
        assert((a + b).drop_last() =~= a + b.drop_last());
        assert((a + b).last() == b.last());
        assert(without_white_space(a + b) =~= without_white_space(a) + without_white_space(b));
    }
}

/// Joined parts are the parts with the separator between each two.
pub proof fn parts_are_joined_in_order(parts: Seq<Seq<char>>, last: Seq<char>, sep: Seq<char>)
    ensures
        joined(Seq::<Seq<char>>::empty(), sep) == Seq::<char>::empty(),
        joined(parts.push(last), sep) == (if parts.len() == 0 {
            last
        } else {
            joined(parts, sep) + sep + last
        }),
{
    assert(parts.push(last).drop_last() =~= parts);
    if parts.len() == 0 {
        assert(parts.push(last)[0] == last);
    }
}

/// The view of a list of strings has, at every place, what the string there holds.
pub proof fn views_hold_every_string(v: Seq<String>)
    ensures
        views(v).len() == v.len(),
        forall|i: int| 0 <= i < v.len() ==> #[trigger] views(v)[i] == v[i]@,
{
}

} // verus!
