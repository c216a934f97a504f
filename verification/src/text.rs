//! Characters, digits and strings.
//!
//! The parsers and formatters in this crate work on `Vec<char>`, viewed as
//! `Seq<char>`. This module holds the bridges between `str`/`String` and
//! character vectors, and the decimal-digit helpers they share.

use vstd::prelude::*;
use vstd::string::StrSliceExecFns;

verus! {

/// The characters of `s`, in order.
pub fn str_to_chars(s: &str) -> (v: Vec<char>)
    ensures
        v@ == s@,
{
    let n = s.unicode_len();
    let mut v: Vec<char> = Vec::new();
    let mut i: usize = 0;
    while i < n
        invariant
            i <= n,
            n == s@.len(),
            v@ == s@.take(i as int),
        decreases n - i,
    {
        v.push(s.get_char(i));
        proof {
            assert(v@ =~= s@.take(i as int + 1));
        }
        i = i + 1;
    }
    proof {
        assert(v@ =~= s@);
    }
    v
}

/// Relies on `String::push`: appends exactly the one character `c` to `s`.
#[verifier::external_body]
pub fn push_char(s: &mut String, c: char)
    ensures
        final(s)@ == old(s)@.push(c),
{
    s.push(c);
}

/// A `String` holding exactly the characters of `v`.
pub fn chars_to_string(v: &Vec<char>) -> (s: String)
    ensures
        s@ == v@,
{
    let mut s = String::new();
    let mut i: usize = 0;
    while i < v.len()
        invariant
            i <= v@.len(),
            s@ == v@.take(i as int),
        decreases v@.len() - i,
    {
        push_char(&mut s, v[i]);
        proof {
            assert(s@ =~= v@.take(i as int + 1));
        }
        i = i + 1;
    }
    proof {
        assert(s@ =~= v@);
    }
    s
}

// ---------------------------------------------------------------------------
// Decimal digits
// ---------------------------------------------------------------------------

pub open spec fn digit_char(d: int) -> char {
    if d == 0 {
        '0'
    } else if d == 1 {
        '1'
    } else if d == 2 {
        '2'
    } else if d == 3 {
        '3'
    } else if d == 4 {
        '4'
    } else if d == 5 {
        '5'
    } else if d == 6 {
        '6'
    } else if d == 7 {
        '7'
    } else if d == 8 {
        '8'
    } else {
        '9'
    }
}

pub open spec fn is_digit(c: char) -> bool {
    48 <= c as int <= 57
}

pub open spec fn char_digit(c: char) -> int {
    c as int - 48
}

pub proof fn lemma_digit_char(d: int)
    requires
        0 <= d < 10,
    ensures
        is_digit(digit_char(d)),
        char_digit(digit_char(d)) == d,
{
}

pub fn char_of_digit(d: u64) -> (c: char)
    requires
        d < 10,
    ensures
        c == digit_char(d as int),
{
    match d {
        0 => '0',
        1 => '1',
        2 => '2',
        3 => '3',
        4 => '4',
        5 => '5',
        6 => '6',
        7 => '7',
        8 => '8',
        _ => '9',
    }
}

pub fn is_digit_char(c: char) -> (r: bool)
    ensures
        r == is_digit(c),
{
    let u = c as u32;
    48 <= u && u <= 57
}

pub fn digit_of(c: char) -> (d: u64)
    requires
        is_digit(c),
    ensures
        d as int == char_digit(c),
        d < 10,
{
    (c as u32 - 48) as u64
}

/// The decimal digits of `n`, most significant first, without leading zeros
/// (a single `'0'` for zero).
pub open spec fn dec_digits(n: int) -> Seq<char>
    decreases n,
{
    if n < 10 {
        seq![digit_char(n)]
    } else {
        dec_digits(n / 10).push(digit_char(n % 10))
    }
}

/// Appends the decimal digits of `n` to `out`.
pub fn push_dec(out: &mut Vec<char>, n: u64)
    ensures
        final(out)@ == old(out)@ + dec_digits(n as int),
    decreases n,
{
    if n < 10 {
        out.push(char_of_digit(n));
        proof {
            assert(final(out)@ =~= old(out)@ + dec_digits(n as int));
        }
    } else {
        push_dec(out, n / 10);
        out.push(char_of_digit(n % 10));
        proof {
            assert(final(out)@ =~= old(out)@ + dec_digits(n as int));
        }
    }
}

/// Appends the characters of `s` to `out`.
pub fn push_str_chars(out: &mut Vec<char>, s: &str)
    ensures
        final(out)@ == old(out)@ + s@,
{
    let mut chars = str_to_chars(s);
    out.append(&mut chars);
}

// ---------------------------------------------------------------------------
// Splitting and trimming
// ---------------------------------------------------------------------------

/// The first position of `c` in `s` at or after `i`, or `s.len()`.
pub open spec fn index_of_from(s: Seq<char>, c: char, i: int) -> int
    decreases s.len() - i,
{
    if i < 0 || i >= s.len() {
        s.len() as int
    } else if s[i] == c {
        i
    } else {
        index_of_from(s, c, i + 1)
    }
}

/// The parts of `s` between occurrences of `c`, in order; one part more than
/// there are occurrences.
pub open spec fn split_on(s: Seq<char>, c: char) -> Seq<Seq<char>>
    decreases s.len(),
{
    let i = index_of_from(s, c, 0);
    if 0 <= i < s.len() {
        seq![s.subrange(0, i)] + split_on(s.subrange(i + 1, s.len() as int), c)
    } else {
        seq![s]
    }
}

/// The characters of `v` from `a` (inclusive) to `b` (exclusive).
pub fn subvec(v: &Vec<char>, a: usize, b: usize) -> (r: Vec<char>)
    requires
        a <= b <= v@.len(),
    ensures
        r@ == v@.subrange(a as int, b as int),
{
    let mut r: Vec<char> = Vec::new();
    let mut i: usize = a;
    while i < b
        invariant
            a <= i <= b <= v@.len(),
            r@ == v@.subrange(a as int, i as int),
        decreases b - i,
    {
        r.push(v[i]);
        proof {
            assert(r@ =~= v@.subrange(a as int, i as int + 1));
        }
        i = i + 1;
    }
    r
}

/// Splits `v` on `c`, as `split_on` describes.
pub fn split_chars(v: &Vec<char>, c: char) -> (parts: Vec<Vec<char>>)
    ensures
        parts.deep_view() == split_on(v@, c),
    decreases v@.len(),
{
    let mut i: usize = 0;
    let n = v.len();
    while i < n && v[i] != c
        invariant
            0 <= i <= n == v@.len(),
            index_of_from(v@, c, 0) == index_of_from(v@, c, i as int),
        decreases n - i,
    {
        i = i + 1;
    }
    if i == n {
        let part = subvec(v, 0, n);
        let mut parts: Vec<Vec<char>> = Vec::new();
        proof {
            assert(part@ =~= v@);
        }
        parts.push(part);
        proof {
            assert(parts.deep_view() =~~= split_on(v@, c));
        }
        parts
    } else {
        let head = subvec(v, 0, i);
        let tail = subvec(v, i + 1, n);
        let mut rest = split_chars(&tail, c);
        let mut parts: Vec<Vec<char>> = Vec::new();
        parts.push(head);
        parts.append(&mut rest);
        proof {
            assert(parts.deep_view() =~~= split_on(v@, c));
        }
        parts
    }
}

pub proof fn lemma_index_of_first(s: Seq<char>, c: char, i: int, j: int)
    requires
        0 <= i <= j < s.len(),
        s[j] == c,
        forall|k: int| i <= k < j ==> s[k] != c,
    ensures
        index_of_from(s, c, i) == j,
    decreases j - i,
{
    if i < j {
        lemma_index_of_first(s, c, i + 1, j);
    }
}

pub proof fn lemma_index_of_absent(s: Seq<char>, c: char, i: int)
    requires
        0 <= i <= s.len(),
        forall|k: int| i <= k < s.len() ==> s[k] != c,
    ensures
        index_of_from(s, c, i) == s.len(),
    decreases s.len() - i,
{
    if i < s.len() {
        lemma_index_of_absent(s, c, i + 1);
    }
}

/// Splitting text that holds no separator yields the text as its one part.
pub proof fn lemma_split_absent(s: Seq<char>, c: char)
    requires
        forall|k: int| 0 <= k < s.len() ==> s[k] != c,
    ensures
        split_on(s, c) == seq![s],
{
    lemma_index_of_absent(s, c, 0);
}

/// Splitting peels one separator-free part off the front.
pub proof fn lemma_split_first(l: Seq<char>, rest: Seq<char>, c: char)
    requires
        forall|k: int| 0 <= k < l.len() ==> l[k] != c,
    ensures
        split_on(l + seq![c] + rest, c) == seq![l] + split_on(rest, c),
{
    let s = l + seq![c] + rest;
    assert(s[l.len() as int] == c);
    assert forall|k: int| 0 <= k < l.len() implies s[k] != c by {
        assert(s[k] == l[k]);
    }
    lemma_index_of_first(s, c, 0, l.len() as int);
    assert(s.subrange(0, l.len() as int) =~= l);
    assert(s.subrange(l.len() as int + 1, s.len() as int) =~= rest);
}

/// Trimming a cleanly quoted field yields exactly its contents.
pub proof fn lemma_trim_quoted(x: Seq<char>)
    requires
        forall|k: int| 0 <= k < x.len() ==> x[k] != '"',
    ensures
        trim_quotes(seq!['"'] + x + seq!['"']) == x,
{
    reveal_with_fuel(trim_quotes, 5);
    let s = seq!['"'] + x + seq!['"'];
    assert(s.len() == x.len() + 2);
    assert(s[0] == '"');
    let s1 = s.subrange(1, s.len() as int);
    assert(s1 =~= x + seq!['"']);
    if x.len() == 0 {
        assert(s1[0] == '"');
        assert(s1.subrange(1, 1) =~= Seq::<char>::empty());
        assert(trim_quotes(s) =~= x);
    } else {
        assert(s1[0] == x[0]);
        assert(s1[s1.len() - 1] == '"');
        let s2 = s1.subrange(0, s1.len() - 1);
        assert(s2 =~= x);
        assert(x[x.len() - 1] != '"');
        assert(trim_quotes(s) == x);
    }
}

/// A concatenation avoids a character that both halves avoid.
pub proof fn lemma_add_avoids(a: Seq<char>, b: Seq<char>, c: char)
    requires
        forall|k: int| 0 <= k < a.len() ==> a[k] != c,
        forall|k: int| 0 <= k < b.len() ==> b[k] != c,
    ensures
        forall|k: int| 0 <= k < (a + b).len() ==> (#[trigger] (a + b)[k]) != c,
{
    assert forall|k: int| 0 <= k < (a + b).len() implies (#[trigger] (a + b)[k]) != c by {
        if k < a.len() {
            assert((a + b)[k] == a[k]);
        } else {
            assert((a + b)[k] == b[k - a.len()]);
        }
    }
}

/// `s` with every leading and trailing `'"'` removed.
pub open spec fn trim_quotes(s: Seq<char>) -> Seq<char>
    decreases s.len(),
{
    if s.len() > 0 && s[0] == '"' {
        trim_quotes(s.subrange(1, s.len() as int))
    } else if s.len() > 0 && s[s.len() - 1] == '"' {
        trim_quotes(s.subrange(0, s.len() - 1))
    } else {
        s
    }
}

/// Trims `'"'` from both ends of `v`, as `trim_quotes` describes.
pub fn trim_quote_chars(v: &Vec<char>) -> (r: Vec<char>)
    ensures
        r@ == trim_quotes(v@),
{
    let mut a: usize = 0;
    let mut b: usize = v.len();
    proof {
        assert(v@.subrange(0, v@.len() as int) =~= v@);
    }
    while a < b && v[a] == '"'
        invariant
            0 <= a <= b <= v@.len(),
            trim_quotes(v@) == trim_quotes(v@.subrange(a as int, b as int)),
        decreases b - a,
    {
        proof {
            assert(v@.subrange(a as int, b as int).subrange(
                1,
                v@.subrange(a as int, b as int).len() as int,
            ) =~= v@.subrange(a as int + 1, b as int));
        }
        a = a + 1;
    }
    while a < b && v[b - 1] == '"'
        invariant
            0 <= a <= b <= v@.len(),
            trim_quotes(v@) == trim_quotes(v@.subrange(a as int, b as int)),
            a < b ==> v@[a as int] != '"',
        decreases b - a,
    {
        proof {
            assert(v@.subrange(a as int, b as int).subrange(
                0,
                v@.subrange(a as int, b as int).len() - 1,
            ) =~= v@.subrange(a as int, b as int - 1));
        }
        b = b - 1;
    }
    subvec(v, a, b)
}

} // verus!
