//! Quoting for a POSIX shell.

use vstd::prelude::*;

verus! {

/// How `c` stands inside single quotes. A quote cannot stand there, so it closes
/// the quotes, follows as `\'`, and opens them again.
pub open spec fn escaped_char(c: char) -> Seq<char> {
    if c == '\'' {
        seq!['\'', '\\', '\'', '\'']
    } else {
        seq![c]
    }
}

/// How `s` stands inside single quotes.
pub open spec fn escaped(s: Seq<char>) -> Seq<char>
    decreases s.len(),
{
    if s.len() == 0 {
        Seq::empty()
    } else {
        escaped_char(s[0]) + escaped(s.drop_first())
    }
}

/// `s` as one shell word in single quotes.
pub open spec fn quoted(s: Seq<char>) -> Seq<char> {
    seq!['\''] + escaped(s) + seq!['\'']
}

/// `s` as one shell word in single quotes.
pub fn shell_quote(s: &str) -> (r: String)
    ensures
        r@ == quoted(s@),
{
    let mut r = String::new();
    r.push('\'');
    assert(r@ + escaped(s@) =~= seq!['\''] + escaped(s@));
    assert(s@.skip(0) =~= s@);
    for c in it: s.chars()
        invariant
            it.seq() == s@,
            r@ + escaped(s@.skip(it.index())) == seq!['\''] + escaped(s@),
    {
        let ghost k = it.index();
        let ghost before = r@;
        if c == '\'' {
            r.push('\'');
            r.push('\\');
            r.push('\'');
            r.push('\'');
        } else {
            r.push(c);
        }
        proof {
            assert(s@.skip(k).drop_first() =~= s@.skip(k + 1));
            assert(r@ =~= before + escaped_char(c));
            assert(r@ + escaped(s@.skip(k + 1)) =~= before + escaped(s@.skip(k)));
        }
    }
    assert(s@.skip(s@.len() as int).len() == 0);
    assert(r@ =~= seq!['\''] + escaped(s@));
    r.push('\'');
    assert(r@ =~= quoted(s@));
    r
}

// ---------------------------------------------------------------------------
// How a shell reads a word
// ---------------------------------------------------------------------------

/// The characters that end an unquoted word.
pub open spec fn ends_word(c: char) -> bool {
    ||| c == ' '
    ||| c == '\t'
    ||| c == '\n'
    ||| c == ';'
    ||| c == '&'
    ||| c == '|'
    ||| c == '<'
    ||| c == '>'
    ||| c == '('
    ||| c == ')'
}

/// The unquoted characters with which a word asks for more than the removal of
/// quotes: expansions, patterns, comments, double quotes.
pub open spec fn needs_more(c: char) -> bool {
    ||| c == '"'
    ||| c == '$'
    ||| c == '`'
    ||| c == '*'
    ||| c == '?'
    ||| c == '['
    ||| c == '~'
    ||| c == '#'
}

/// How a POSIX shell reads the word that `s` begins with: the word's value and
/// what follows it. Inside single quotes every character stands for itself up to
/// the next quote; outside, a backslash makes the next character stand for
/// itself. `None` where a quote is left open, and where the shell would do more
/// than remove quotes.
pub open spec fn read_word(s: Seq<char>, in_quotes: bool) -> Option<(Seq<char>, Seq<char>)>
    decreases s.len(),
{
    if s.len() == 0 {
        if in_quotes {
            None
        } else {
            Some((Seq::empty(), s))
        }
    } else if s[0] == '\'' {
        read_word(s.drop_first(), !in_quotes)
    } else if in_quotes {
        with_first(s[0], read_word(s.drop_first(), true))
    } else if ends_word(s[0]) {
        Some((Seq::empty(), s))
    } else if s[0] == '\\' {
        if s.len() < 2 || s[1] == '\n' {
            None
        } else {
            with_first(s[1], read_word(s.skip(2), false))
        }
    } else if needs_more(s[0]) {
        None
    } else {
        with_first(s[0], read_word(s.drop_first(), false))
    }
}

/// The word `w` with `c` in front.
pub open spec fn with_first(
    c: char,
    w: Option<(Seq<char>, Seq<char>)>,
) -> Option<(Seq<char>, Seq<char>)> {
    match w {
        Some((word, rest)) => Some((seq![c] + word, rest)),
        None => None,
    }
}

/// The word `w` with `front` in front.
pub open spec fn with_front(
    front: Seq<char>,
    w: Option<(Seq<char>, Seq<char>)>,
) -> Option<(Seq<char>, Seq<char>)> {
    match w {
        Some((word, rest)) => Some((front + word, rest)),
        None => None,
    }
}

proof fn lemma_escaped_reads_back(s: Seq<char>, rest: Seq<char>)
    ensures
        read_word(escaped(s) + seq!['\''] + rest, true) == with_front(s, read_word(rest, false)),
    decreases s.len(),
{
    let text = escaped(s) + seq!['\''] + rest;
    if s.len() == 0 {
        assert(text.drop_first() =~= rest);
        if let Some((word, after)) = read_word(rest, false) {
            assert(s + word =~= word);
        }
    } else {
        let tail = escaped(s.drop_first()) + seq!['\''] + rest;
        lemma_escaped_reads_back(s.drop_first(), rest);
        if let Some((word, after)) = read_word(rest, false) {
            assert(seq![s[0]] + (s.drop_first() + word) =~= s + word);
        }
        if s[0] == '\'' {
            assert(text =~= seq!['\'', '\\', '\'', '\''] + tail);
            let t1 = text.drop_first();
            let t2 = t1.skip(2);
            assert(t1[0] == '\\' && t1[1] == '\'');
            assert(t2[0] == '\'');
            assert(t2.drop_first() =~= tail);
            assert(read_word(t2, false) == read_word(tail, true));
            assert(read_word(t1, false) == with_first('\'', read_word(t2, false)));
            assert(read_word(text, true) == read_word(t1, false));
        } else {
            assert(text =~= seq![s[0]] + tail);
            assert(text.drop_first() =~= tail);
        }
    }
}

/// A quoted string at the front of a word gives the word exactly the characters of
/// the string, whatever they are; the word goes on with what follows.
pub proof fn quoting_begins_a_word(s: Seq<char>, rest: Seq<char>)
    ensures
        read_word(quoted(s) + rest, false) == with_front(s, read_word(rest, false)),
{
    lemma_escaped_reads_back(s, rest);
    let text = quoted(s) + rest;
    assert(text.drop_first() =~= escaped(s) + seq!['\''] + rest);
}

/// A quoted string is one word, and the shell reads back exactly the string that
/// was quoted, whatever it holds: nothing in it can end the word or be taken for
/// shell syntax.
pub proof fn quoting_is_read_back(s: Seq<char>, rest: Seq<char>)
    requires
        rest.len() == 0 || ends_word(rest[0]),
    ensures
        read_word(quoted(s) + rest, false) == Some((s, rest)),
{
    quoting_begins_a_word(s, rest);
    assert(read_word(rest, false) == Some((Seq::<char>::empty(), rest)));
    assert(s + Seq::<char>::empty() =~= s);
}

/// Two strings that quote alike are the same string.
pub proof fn quoting_is_injective(a: Seq<char>, b: Seq<char>)
    requires
        quoted(a) == quoted(b),
    ensures
        a == b,
{
    let none = Seq::<char>::empty();
    quoting_is_read_back(a, none);
    quoting_is_read_back(b, none);
}

proof fn lemma_escaped_concat(a: Seq<char>, b: Seq<char>)
    ensures
        escaped(a + b) == escaped(a) + escaped(b),
    decreases a.len(),
{
    if a.len() == 0 {
        assert(a + b =~= b);
        assert(escaped(a) + escaped(b) =~= escaped(b));
    } else {
        assert((a + b).drop_first() =~= a.drop_first() + b);
        lemma_escaped_concat(a.drop_first(), b);
        assert(escaped(a + b) =~= escaped(a) + escaped(b));
    }
}

/// A string without a quote stands between two quotes as it is. Where it has one,
/// what stands before and after is quoted by itself, and `\'` stands between.
pub proof fn quotes_stand_outside_the_quoted_parts(a: Seq<char>, b: Seq<char>)
    ensures
        !a.contains('\'') ==> quoted(a) == seq!['\''] + a + seq!['\''],
        quoted(a + seq!['\''] + b) == quoted(a) + seq!['\\', '\''] + quoted(b),
    decreases a.len(),
{
    let q = seq!['\''];
    assert(a + q + b =~= a + (q + b));
    lemma_escaped_concat(a, q + b);
    lemma_escaped_concat(q, b);
    assert(q.drop_first() =~= Seq::<char>::empty());
    reveal_with_fuel(escaped, 2);
    assert(escaped(q) =~= seq!['\'', '\\', '\'', '\'']);
    assert(quoted(a + q + b) =~= quoted(a) + seq!['\\', '\''] + quoted(b));
    if !a.contains('\'') && a.len() > 0 {
        assert(a.contains(a[0]));
        assert forall|i: int| 0 <= i < a.drop_first().len() implies a.drop_first()[i] != '\'' by {
            assert(a.contains(a[i + 1]));
        }
        quotes_stand_outside_the_quoted_parts(a.drop_first(), b);
        let rest = a.drop_first();
        assert(escaped(rest) =~= quoted(rest).subrange(1, quoted(rest).len() - 1));
        assert(escaped(rest) =~= rest) by {
            assert(quoted(rest) =~= q + rest + q);
            assert((q + rest + q).subrange(1, rest.len() as int + 1) =~= rest);
            assert(quoted(rest).len() == rest.len() + 2);
        }
        assert(escaped(a) =~= a);
    }
    if a.len() == 0 {
        assert(escaped(a) =~= a);
    }
}

} // verus!
