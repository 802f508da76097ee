//! Numbers as text: octal modes, decimal counts, hexadecimal checksums.

use crate::text::chars_of;
use vstd::prelude::*;

verus! {

// ---------------------------------------------------------------------------
// Writing
// ---------------------------------------------------------------------------

/// The digit for `d`: `0` to `9`, then `a` to `f`.
pub open spec fn digit(d: int) -> char {
    if d < 10 {
        (d + 0x30) as char
    } else {
        (d + 0x57) as char
    }
}

/// `n` written in `base`, without leading zeros.
pub open spec fn written(n: nat, base: nat) -> Seq<char>
    decreases n,
{
    if base < 2 || n < base {
        seq![digit(n as int)]
    } else {
        proof {
            assert(n / base < n) by (nonlinear_arith)
                requires
                    2 <= base <= n,
            ;
        }
        written(n / base, base).push(digit((n % base) as int))
    }
}

/// The integer `n` in decimal, with a `-` in front where it is negative.
pub open spec fn decimal(n: int) -> Seq<char> {
    if n < 0 {
        seq!['-'] + written((-n) as nat, 10)
    } else {
        written(n as nat, 10)
    }
}

/// The bytes in hexadecimal, two small digits each.
pub open spec fn hex(bytes: Seq<u8>) -> Seq<char>
    decreases bytes.len(),
{
    if bytes.len() == 0 {
        Seq::empty()
    } else {
        hex(bytes.drop_last()).push(digit(bytes.last() as int / 16)).push(
            digit(bytes.last() as int % 16),
        )
    }
}

fn digit_char(d: u8) -> (c: char)
    requires
        d < 16,
    ensures
        c == digit(d as int),
{
    if d < 10 {
        (d + 0x30) as char
    } else {
        (d + 0x57) as char
    }
}

fn push_written(r: &mut String, n: u64, base: u64)
    requires
        2 <= base <= 16,
    ensures
        final(r)@ == old(r)@ + written(n as nat, base as nat),
    decreases n,
{
    if n < base {
        r.push(digit_char(n as u8));
        assert(r@ =~= old(r)@ + written(n as nat, base as nat));
    } else {
        assert(0 <= n / base < n) by (nonlinear_arith)
            requires
                2 <= base <= n,
        ;
        assert(0 <= n % base < base) by (nonlinear_arith)
            requires
                2 <= base,
        ;
        push_written(r, n / base, base);
        r.push(digit_char((n % base) as u8));
        assert(r@ =~= old(r)@ + written(n as nat, base as nat));
    }
}

/// `n` in octal, as for `chmod`.
pub fn octal(n: u32) -> (r: String)
    ensures
        r@ == written(n as nat, 8),
{
    let mut r = String::new();
    push_written(&mut r, n as u64, 8);
    assert(r@ =~= written(n as nat, 8));
    r
}

/// `n` in decimal.
pub fn decimal_text(n: i32) -> (r: String)
    ensures
        r@ == decimal(n as int),
{
    let mut r = String::new();
    if n < 0 {
        r.push('-');
        let m: i64 = -(n as i64);
        push_written(&mut r, m as u64, 10);
    } else {
        push_written(&mut r, n as u64, 10);
    }
    assert(r@ =~= decimal(n as int));
    r
}

/// The bytes in hexadecimal.
pub fn hex_text(bytes: &[u8]) -> (r: String)
    ensures
        r@ == hex(bytes@),
{
    let mut r = String::new();
    let mut i: usize = 0;
    while i < bytes.len()
        invariant
            i <= bytes@.len(),
            r@ == hex(bytes@.take(i as int)),
        decreases bytes@.len() - i,
    {
        let b: u8 = bytes[i];
        r.push(digit_char(b / 16));
        r.push(digit_char(b % 16));
        assert(bytes@.take(i + 1).drop_last() =~= bytes@.take(i as int));
        i = i + 1;
    }
    assert(bytes@.take(bytes@.len() as int) =~= bytes@);
    r
}

// ---------------------------------------------------------------------------
// Reading
// ---------------------------------------------------------------------------

/// Whether `s` holds ASCII digits only, and at least one.
pub open spec fn all_digits(s: Seq<char>) -> bool {
    &&& s.len() > 0
    &&& forall|i: int| 0 <= i < s.len() ==> '0' <= #[trigger] s[i] <= '9'
}

/// The number that the digits `s` write in `base`.
pub open spec fn value_in(s: Seq<char>, base: nat) -> nat
    decreases s.len(),
{
    if s.len() == 0 {
        0
    } else {
        (value_in(s.drop_last(), base) * base + (s.last() as int - '0' as int)) as nat
    }
}

/// The number that the digits `s` write in decimal.
pub open spec fn value(s: Seq<char>) -> nat {
    value_in(s, 10)
}

/// `s` without the one `+` that it may begin with.
pub open spec fn without_plus(s: Seq<char>) -> Seq<char> {
    if s.len() > 0 && s[0] == '+' {
        s.drop_first()
    } else {
        s
    }
}

/// The count that `s` writes: digits, after at most one `+`, of a number that
/// fits in a `usize`.
pub open spec fn count_of(s: Seq<char>) -> Option<usize> {
    let d = without_plus(s);
    if all_digits(d) && value(d) <= usize::MAX {
        Some(value(d) as usize)
    } else {
        None
    }
}

proof fn lemma_value_grows(s: Seq<char>, i: int)
    requires
        0 <= i <= s.len(),
        all_digits(s),
    ensures
        value(s.take(i)) <= value(s),
    decreases s.len() - i,
{
    if i == s.len() {
        assert(s.take(i) =~= s);
    } else {
        assert(s.take(i + 1).drop_last() =~= s.take(i));
        lemma_value_grows(s, i + 1);
        assert(s.take(i + 1).last() == s[i]);
        assert('0' <= s[i] <= '9');
    }
}

/// The count that `s` writes, or `None` where it writes none.
pub fn parse_count(s: &str) -> (r: Option<usize>)
    ensures
        r == count_of(s@),
{
    let cs: Vec<char> = chars_of(s);
    let mut from: usize = 0;
    if cs.len() > 0 && cs[0] == '+' {
        from = 1;
    }
    let ghost d = without_plus(s@);
    assert(d =~= cs@.skip(from as int));
    if from == cs.len() {
        return None;
    }
    let mut n: usize = 0;
    let mut i: usize = from;
    assert(d.take(0) =~= Seq::<char>::empty());
    while i < cs.len()
        invariant
            from <= i <= cs@.len(),
            d == cs@.skip(from as int),
            d == without_plus(s@),
            n == value(d.take(i - from)),
            forall|j: int| 0 <= j < i - from ==> '0' <= #[trigger] d[j] <= '9',
        decreases cs@.len() - i,
    {
        let c: char = cs[i];
        assert(c == d[i - from]);
        if c < '0' || c > '9' {
            assert(!('0' <= d[i - from] <= '9'));
            return None;
        }
        let v: usize = (c as u32 - 0x30) as usize;
        assert(d.take(i - from + 1).drop_last() =~= d.take(i - from));
        assert(value(d.take(i - from + 1)) == n * 10 + v);
        let grown: Option<usize> = n.checked_mul(10);
        let next: Option<usize> = match grown {
            Some(m) => m.checked_add(v),
            None => None,
        };
        match next {
            Some(m) => {
                n = m;
            },
            None => {
                proof {
                    if all_digits(d) {
                        lemma_value_grows(d, i - from + 1);
                    }
                }
                return None;
            },
        }
        i = i + 1;
    }
    assert(d.take(d.len() as int) =~= d);
    Some(n)
}

// ---------------------------------------------------------------------------
// Laws
// ---------------------------------------------------------------------------

/// A number that is written is read back: in decimal, as in octal.
pub proof fn written_numbers_are_read_back(n: nat, base: nat)
    requires
        2 <= base <= 10,
    ensures
        value_in(written(n, base), base) == n,
        all_digits(written(n, base)),
    decreases n,
{
    let w = written(n, base);
    if n < base {
        assert(w.drop_last() =~= Seq::<char>::empty());
        assert(value_in(w.drop_last(), base) == 0);
        assert(0 * base == 0) by (nonlinear_arith);
    } else {
        assert(n / base < n) by (nonlinear_arith)
            requires
                2 <= base <= n,
        ;
        written_numbers_are_read_back(n / base, base);
        let head = written(n / base, base);
        assert(w.drop_last() =~= head);
        assert(0 <= n % base < base) by (nonlinear_arith)
            requires
                2 <= base,
        ;
        assert((n / base) * base + n % base == n) by (nonlinear_arith)
            requires
                2 <= base,
        ;
        assert forall|i: int| 0 <= i < w.len() implies '0' <= #[trigger] w[i] <= '9' by {
            if i < head.len() {
                assert(w[i] == head[i]);
            }
        }
    }
}

/// A count that is written in decimal is read back.
pub proof fn written_counts_are_read_back(n: usize)
    ensures
        count_of(decimal(n as int)) == Some(n),
{
    written_numbers_are_read_back(n as nat, 10);
    let w = written(n as nat, 10);
    assert('0' <= w[0] <= '9');
    assert(without_plus(w) == w);
}

/// A checksum in hexadecimal tells the bytes that it was made of.
pub proof fn hex_is_injective(a: Seq<u8>, b: Seq<u8>)
    requires
        hex(a) == hex(b),
    ensures
        a == b,
    decreases a.len(),
{
    if a.len() == 0 {
        if b.len() > 0 {
            assert(hex(b).len() > 0);
        }
        assert(a =~= b);
    } else if b.len() == 0 {
        assert(hex(a).len() > 0);
    } else {
        let ha = hex(a);
        let hb = hex(b);
        assert(ha[ha.len() - 1] == digit(a.last() as int % 16));
        assert(ha[ha.len() - 2] == digit(a.last() as int / 16));
        assert(hb[hb.len() - 1] == digit(b.last() as int % 16));
        assert(hb[hb.len() - 2] == digit(b.last() as int / 16));
        assert(a.last() == b.last());
        assert(ha.drop_last().drop_last() =~= hex(a.drop_last()));
        assert(hb.drop_last().drop_last() =~= hex(b.drop_last()));
        hex_is_injective(a.drop_last(), b.drop_last());
        assert(a =~= a.drop_last().push(a.last()));
        assert(b =~= b.drop_last().push(b.last()));
    }
}

proof fn lemma_digit(d: int)
    requires
        0 <= d < 16,
    ensures
        digit(d) == "0123456789abcdef"@[d],
{
    reveal_strlit("0123456789abcdef");
}

/// One more digit at the end multiplies by the base and adds the digit, in writing
/// and in reading.
pub proof fn digits_count_by_their_place(n: nat, d: nat, base: nat, s: Seq<char>, c: char)
    requires
        2 <= base <= 16,
        d < base,
        '0' <= c <= '9',
    ensures
        written(d, base) == seq!["0123456789abcdef"@[d as int]],
        n > 0 ==> written(n * base + d, base) == written(n, base).push(
            "0123456789abcdef"@[d as int],
        ),
        value_in(Seq::<char>::empty(), base) == 0,
        value_in(s.push(c), base) == value_in(s, base) * base + (c as int - '0' as int),
{
    lemma_digit(d as int);
    if n > 0 {
        let m: nat = n * base + d;
        assert(m >= base && m / base == n && m % base == d) by (nonlinear_arith)
            requires
                n > 0,
                d < base,
                2 <= base,
                m == n * base + d,
        ;
    }
    assert(s.push(c).drop_last() =~= s);
    assert(value_in(s, base) * base >= 0) by (nonlinear_arith);
}

/// A number has a digit, none of them is the base or more, and the first is no zero
/// but for zero itself.
pub proof fn numerals_have_no_leading_zeros(n: nat, base: nat)
    requires
        2 <= base <= 10,
    ensures
        written(n, base).len() > 0,
        n > 0 ==> written(n, base)[0] != '0',
        forall|i: int|
            0 <= i < written(n, base).len() ==> '0' as int <= #[trigger] written(n, base)[i] as int
                && written(n, base)[i] as int - '0' as int <= base - 1,
    decreases n,
{
    if n >= base {
        assert(0 < n / base < n) by (nonlinear_arith)
            requires
                2 <= base <= n,
        ;
        assert(0 <= n % base < base) by (nonlinear_arith)
            requires
                2 <= base,
        ;
        numerals_have_no_leading_zeros(n / base, base);
        let head = written(n / base, base);
        assert forall|i: int| 0 <= i < written(n, base).len() implies '0' as int
            <= #[trigger] written(n, base)[i] as int && written(n, base)[i] as int - '0' as int
            <= base - 1 by {
            if i < head.len() {
                assert(written(n, base)[i] == head[i]);
            }
        }
    }
}

/// A negative number is written as its opposite with a `-` in front.
pub proof fn negative_numbers_have_a_sign(n: int)
    ensures
        n >= 0 ==> decimal(n) == written(n as nat, 10),
        n < 0 ==> decimal(n) == seq!['-'] + decimal(-n),
{
}

/// Every byte is two hexadecimal digits, the high one first, and the bytes follow
/// each other.
pub proof fn bytes_are_two_digits_each(a: Seq<u8>, b: Seq<u8>, x: u8)
    ensures
        hex(a + b) == hex(a) + hex(b),
        hex(seq![x]) == seq![
            "0123456789abcdef"@[x as int / 16],
            "0123456789abcdef"@[x as int % 16],
        ],
        hex(a).len() == 2 * a.len(),
    decreases a.len() + b.len(),
{
    lemma_digit(x as int / 16);
    lemma_digit(x as int % 16);
    let none = Seq::<u8>::empty();
    assert(seq![x].drop_last() =~= none);
    assert(hex(none) =~= Seq::<char>::empty());
    assert(hex(seq![x]) =~= seq![
        "0123456789abcdef"@[x as int / 16],
        "0123456789abcdef"@[x as int % 16],
    ]);
    if b.len() > 0 {
        bytes_are_two_digits_each(a, b.drop_last(), x);
        assert((a + b).drop_last() =~= a + b.drop_last());
        assert((a + b).last() == b.last());
        assert(hex(a + b) =~= hex(a) + hex(b));
    } else {
        assert(a + b =~= a);
        assert(hex(a) + hex(b) =~= hex(a));
        if a.len() > 0 {
            bytes_are_two_digits_each(a.drop_last(), none, x);
        }
    }
}

/// A count is one or more decimal digits, with or without one `+` in front, whose
/// number fits in a `usize`; nothing else is one.
pub proof fn counts_are_decimal_digits(s: Seq<char>)
    requires
        s.len() == 0 || s[0] != '+',
    ensures
        count_of(s) is Some <==> s.len() > 0 && (forall|i: int|
            0 <= i < s.len() ==> '0' <= #[trigger] s[i] <= '9') && value_in(s, 10) <= usize::MAX,
        count_of(s) matches Some(n) ==> n == value_in(s, 10),
        count_of(seq!['+'] + s) == count_of(s),
{
    assert((seq!['+'] + s).drop_first() =~= s);
}

} // verus!
