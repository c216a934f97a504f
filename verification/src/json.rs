//! The JSON payload codec.
//!
//! Requests and replies travel as JSON documents in the canonical form this
//! module emits: fixed key order and no insignificant whitespace. The
//! decoders read exactly that canonical form back and refuse every other
//! rendering of the same document — reordered keys or whitespace between
//! tokens included. Both ends of the wire speak through this module, so the
//! restriction costs nothing between them; a third-party client must send
//! canonical text. Decoding an encoded value yields the value again, which
//! `lemma_command_round_trip` and `lemma_response_round_trip` state and
//! prove.

use crate::command::{Command, CommandV};
use crate::error_code::ErrorCode;
use crate::nag::{Nag, NagV, all_nags_valid};
use crate::response::{Response, ResponseV};
use crate::text::{chars_to_string, push_str_chars, str_to_chars};
use crate::time::{Timestamp, max_secs, rfc3339_of, push_rfc3339, parse_rfc3339_at, parse_rfc3339,
    lemma_rfc3339_round_trip};
use vstd::prelude::*;
use vstd::string::StrSliceExecFns;

verus! {

// ---------------------------------------------------------------------------
// String escaping
// ---------------------------------------------------------------------------

/// The escape form of one character inside a JSON string literal.
pub open spec fn esc_char(c: char) -> Seq<char> {
    if c == '"' {
        seq!['\\', '"']
    } else if c == '\\' {
        seq!['\\', '\\']
    } else if c == '\n' {
        seq!['\\', 'n']
    } else if c == '\r' {
        seq!['\\', 'r']
    } else if c == '\t' {
        seq!['\\', 't']
    } else {
        seq![c]
    }
}

/// The escaped contents of a JSON string literal.
pub open spec fn esc(s: Seq<char>) -> Seq<char>
    decreases s.len(),
{
    if s.len() == 0 {
        seq![]
    } else {
        esc_char(s[0]) + esc(s.subrange(1, s.len() as int))
    }
}

proof fn lemma_esc_push(s: Seq<char>, c: char)
    ensures
        esc(s.push(c)) == esc(s) + esc_char(c),
    decreases s.len(),
{
    let t = s.push(c);
    assert(t.len() == s.len() + 1);
    if s.len() == 0 {
        assert(t[0] == c);
        assert(t.subrange(1, 1) =~= Seq::<char>::empty());
        assert(esc(t) == esc_char(c) + esc(t.subrange(1, 1)));
        assert(esc(t) =~= esc(s) + esc_char(c));
    } else {
        assert(t[0] == s[0]);
        assert(t.subrange(1, t.len() as int) =~= s.subrange(1, s.len() as int).push(c));
        lemma_esc_push(s.subrange(1, s.len() as int), c);
        assert(esc(t) == esc_char(s[0]) + esc(t.subrange(1, t.len() as int)));
        assert(esc(t) =~= esc(s) + esc_char(c));
    }
}

/// A JSON string literal: the escaped characters between quotes.
pub open spec fn jstr(s: Seq<char>) -> Seq<char> {
    seq!['"'] + (esc(s) + seq!['"'])
}

fn push_esc_char(out: &mut Vec<char>, c: char)
    ensures
        final(out)@ == old(out)@ + esc_char(c),
{
    if c == '"' {
        out.push('\\');
        out.push('"');
    } else if c == '\\' {
        out.push('\\');
        out.push('\\');
    } else if c == '\n' {
        out.push('\\');
        out.push('n');
    } else if c == '\r' {
        out.push('\\');
        out.push('r');
    } else if c == '\t' {
        out.push('\\');
        out.push('t');
    } else {
        out.push(c);
    }
    proof {
        assert(final(out)@ =~= old(out)@ + esc_char(c));
    }
}

/// Appends the JSON string literal for `s` to `out`.
fn push_jstr(out: &mut Vec<char>, s: &str)
    ensures
        final(out)@ == old(out)@ + jstr(s@),
{
    let ghost base = out@;
    out.push('"');
    let chars = str_to_chars(s);
    let mut i: usize = 0;
    while i < chars.len()
        invariant
            i <= chars@.len(),
            chars@ == s@,
            out@ == base + seq!['"'] + esc(s@.take(i as int)),
        decreases chars@.len() - i,
    {
        push_esc_char(out, chars[i]);
        proof {
            lemma_esc_push(s@.take(i as int), s@[i as int]);
            assert(s@.take(i as int + 1) =~= s@.take(i as int).push(s@[i as int]));
        }
        i = i + 1;
    }
    out.push('"');
    proof {
        assert(s@.take(s@.len() as int) =~= s@);
        assert(final(out)@ =~= base + jstr(s@));
    }
}

// ---------------------------------------------------------------------------
// Parse primitives
// ---------------------------------------------------------------------------

/// The text `l` stands in `s` at position `i`.
pub open spec fn at_lit(s: Seq<char>, i: int, l: Seq<char>) -> bool {
    &&& 0 <= i
    &&& i + l.len() <= s.len()
    &&& s.subrange(i, i + l.len()) == l
}

pub open spec fn parse_lit_at(s: Seq<char>, i: int, l: Seq<char>) -> Option<int> {
    if at_lit(s, i, l) {
        Some(i + l.len() as int)
    } else {
        None
    }
}

/// The character an escape sequence `\c` stands for, if any.
pub open spec fn unesc_char(c: char) -> Option<char> {
    if c == '"' {
        Some('"')
    } else if c == '\\' {
        Some('\\')
    } else if c == 'n' {
        Some('\n')
    } else if c == 'r' {
        Some('\r')
    } else if c == 't' {
        Some('\t')
    } else {
        None
    }
}

/// The contents of a JSON string literal from `i` (after the opening quote)
/// up to its closing quote, and the position after that quote.
pub open spec fn parse_jstr_body_at(s: Seq<char>, i: int) -> Option<(Seq<char>, int)>
    decreases s.len() - i,
{
    if !(0 <= i < s.len()) {
        None
    } else if s[i] == '"' {
        Some((seq![], i + 1))
    } else if s[i] == '\\' {
        if i + 1 < s.len() {
            match unesc_char(s[i + 1]) {
                Some(c) => match parse_jstr_body_at(s, i + 2) {
                    Some((t, j)) => Some((seq![c] + t, j)),
                    None => None,
                },
                None => None,
            }
        } else {
            None
        }
    } else {
        match parse_jstr_body_at(s, i + 1) {
            Some((t, j)) => Some((seq![s[i]] + t, j)),
            None => None,
        }
    }
}

/// A whole JSON string literal at `i`: its contents and the position after
/// its closing quote.
pub open spec fn parse_jstr_at(s: Seq<char>, i: int) -> Option<(Seq<char>, int)> {
    if 0 <= i < s.len() && s[i] == '"' {
        parse_jstr_body_at(s, i + 1)
    } else {
        None
    }
}

proof fn lemma_subrange_index(s: Seq<char>, i: int, l: Seq<char>)
    requires
        0 <= i,
        i + l.len() <= s.len(),
        s.subrange(i, i + l.len()) == l,
    ensures
        forall|k: int| 0 <= k < l.len() ==> s[i + k] == l[k],
{
    assert forall|k: int| 0 <= k < l.len() implies s[i + k] == l[k] by {
        assert(s.subrange(i, i + l.len())[k] == l[k]);
    }
}

/// Splits one `subrange == a + b` fact into its two parts.
proof fn lemma_split_prefix(s: Seq<char>, i: int, a: Seq<char>, b: Seq<char>)
    requires
        0 <= i,
        i + a.len() + b.len() <= s.len(),
        s.subrange(i, i + a.len() + b.len()) == a + b,
    ensures
        s.subrange(i, i + a.len()) == a,
        s.subrange(i + a.len(), i + a.len() + b.len()) == b,
        at_lit(s, i, a),
{
    lemma_subrange_index(s, i, a + b);
    assert(s.subrange(i, i + a.len()) =~= a);
    assert forall|k: int| 0 <= k < b.len() implies s.subrange(
        i + a.len(),
        i + a.len() + b.len(),
    )[k] == b[k] by {
        assert(s[i + (a.len() + k)] == (a + b)[a.len() + k]);
    }
    assert(s.subrange(i + a.len(), i + a.len() + b.len()) =~= b);
}

proof fn lemma_jstr_body_round_trip(x: Seq<char>, s: Seq<char>, i: int)
    requires
        0 <= i,
        i + esc(x).len() + 1 <= s.len(),
        s.subrange(i, i + esc(x).len()) == esc(x),
        s[i + esc(x).len()] == '"',
    ensures
        parse_jstr_body_at(s, i) == Some((x, i + esc(x).len() + 1)),
    decreases x.len(),
{
    lemma_subrange_index(s, i, esc(x));
    if x.len() == 0 {
        assert(s[i] == s[i + esc(x).len()]);
    } else {
        let c = x[0];
        let rest = x.subrange(1, x.len() as int);
        let e = esc_char(c);
        assert(esc(x) == e + esc(rest));
        assert(e.len() + esc(rest).len() == esc(x).len());
        assert forall|k: int| 0 <= k < esc(rest).len() implies s[i + e.len() + k] == esc(rest)[k]
            by {
            assert(esc(x)[e.len() + k] == (e + esc(rest))[e.len() + k]);
        }
        assert(s.subrange(
            i + e.len() as int,
            i + e.len() + esc(rest).len(),
        ) =~= esc(rest));
        assert(s[i + e.len() + esc(rest).len()] == '"');
        lemma_jstr_body_round_trip(rest, s, i + e.len() as int);
        assert(seq![c] + rest =~= x);
        if c == '"' || c == '\\' || c == '\n' || c == '\r' || c == '\t' {
            assert(s[i + 0] == esc(x)[0] && s[i + 1] == esc(x)[1]);
            assert(s[i] == '\\');
            assert(unesc_char(s[i + 1]) == Some(c));
        } else {
            assert(s[i + 0] == esc(x)[0]);
            assert(s[i] == c);
            assert(s[i] != '"' && s[i] != '\\');
        }
    }
}

/// A written string literal reads back as the string it encodes.
proof fn lemma_jstr_round_trip(x: Seq<char>, s: Seq<char>, i: int)
    requires
        0 <= i,
        i + jstr(x).len() <= s.len(),
        s.subrange(i, i + jstr(x).len()) == jstr(x),
    ensures
        parse_jstr_at(s, i) == Some((x, i + jstr(x).len())),
{
    lemma_subrange_index(s, i, jstr(x));
    assert(s[i + 0] == jstr(x)[0]);
    assert(s[i] == '"');
    assert forall|k: int| 0 <= k < esc(x).len() implies s[i + 1 + k] == esc(x)[k] by {
        assert(jstr(x)[1 + k] == esc(x)[k]);
    }
    assert(s.subrange(i + 1, i + 1 + esc(x).len()) =~= esc(x));
    assert(s[i + 1 + esc(x).len()] == jstr(x)[1 + esc(x).len() as int]);
    assert(s[i + 1 + esc(x).len()] == '"');
    lemma_jstr_body_round_trip(x, s, i + 1);
}

// ---------------------------------------------------------------------------
// Executable parse primitives
// ---------------------------------------------------------------------------

/// Whether the text of `l` stands in `v` at position `i`.
fn lit_at(v: &Vec<char>, i: usize, l: &str) -> (r: bool)
    ensures
        r == at_lit(v@, i as int, l@),
{
    let lc = str_to_chars(l);
    if i > v.len() || v.len() - i < lc.len() {
        proof {
            assert(!at_lit(v@, i as int, l@));
        }
        return false;
    }
    let mut k: usize = 0;
    while k < lc.len()
        invariant
            k <= lc@.len(),
            lc@ == l@,
            i + lc@.len() <= v@.len(),
            v@.len() <= usize::MAX,
            forall|j: int| 0 <= j < k ==> v@[i + j] == l@[j],
        decreases lc@.len() - k,
    {
        if v[i + k] != lc[k] {
            proof {
                if at_lit(v@, i as int, l@) {
                    assert(v@.subrange(i as int, i + l@.len())[k as int] == l@[k as int]);
                }
            }
            return false;
        }
        k = k + 1;
    }
    proof {
        assert(v@.subrange(i as int, i + l@.len()) =~= l@);
    }
    true
}

/// Consumes the text of `l` at `i`, as `parse_lit_at` describes.
fn parse_lit(v: &Vec<char>, i: usize, l: &str) -> (r: Option<usize>)
    ensures
        match r {
            Some(j) => parse_lit_at(v@, i as int, l@) == Some(j as int) && i <= j <= v@.len(),
            None => parse_lit_at(v@, i as int, l@) is None,
        },
{
    if lit_at(v, i, l) {
        let n = v.len();
        assert(i + l@.len() <= n);
        Some(i + l.unicode_len())
    } else {
        None
    }
}

/// Parses a JSON string literal body, as `parse_jstr_body_at` describes.
fn parse_jstr_body(v: &Vec<char>, i: usize) -> (r: Option<(Vec<char>, usize)>)
    ensures
        match r {
            Some((x, j)) => parse_jstr_body_at(v@, i as int) == Some((x@, j as int)) && i < j
                <= v@.len(),
            None => parse_jstr_body_at(v@, i as int) is None,
        },
    decreases v@.len() - i,
{
    if i >= v.len() {
        return None;
    }
    let c = v[i];
    if c == '"' {
        return Some((Vec::new(), i + 1));
    }
    if c == '\\' {
        if i + 1 < v.len() {
            let e = v[i + 1];
            let u: Option<char> = if e == '"' {
                Some('"')
            } else if e == '\\' {
                Some('\\')
            } else if e == 'n' {
                Some('\n')
            } else if e == 'r' {
                Some('\r')
            } else if e == 't' {
                Some('\t')
            } else {
                None
            };
            match u {
                Some(cc) => match parse_jstr_body(v, i + 2) {
                    Some((t, j)) => {
                        let mut t = t;
                        t.insert(0, cc);
                        proof {
                            assert(t@ =~= seq![cc] + t@.subrange(1, t@.len() as int));
                        }
                        Some((t, j))
                    },
                    None => None,
                },
                None => None,
            }
        } else {
            None
        }
    } else {
        match parse_jstr_body(v, i + 1) {
            Some((t, j)) => {
                let mut t = t;
                t.insert(0, c);
                proof {
                    assert(t@ =~= seq![c] + t@.subrange(1, t@.len() as int));
                }
                Some((t, j))
            },
            None => None,
        }
    }
}

/// Parses a whole JSON string literal, as `parse_jstr_at` describes.
fn parse_jstr(v: &Vec<char>, i: usize) -> (r: Option<(Vec<char>, usize)>)
    ensures
        match r {
            Some((x, j)) => parse_jstr_at(v@, i as int) == Some((x@, j as int)) && i < j
                <= v@.len(),
            None => parse_jstr_at(v@, i as int) is None,
        },
{
    if i < v.len() && v[i] == '"' {
        parse_jstr_body(v, i + 1)
    } else {
        None
    }
}

// ---------------------------------------------------------------------------
// Reminders in JSON
// ---------------------------------------------------------------------------

pub open spec fn enc_opt_str(sf: Option<Seq<char>>) -> Seq<char> {
    match sf {
        Some(s) => jstr(s),
        None => "null"@,
    }
}

/// The JSON form of one reminder, with its fixed key order.
pub open spec fn enc_nag(n: NagV) -> Seq<char> {
    "{\"end_time\":\""@ + (rfc3339_of(n.end_time as int) + ("\",\"name\":"@ + (jstr(n.name) + (
    ",\"sound_file\":"@ + (enc_opt_str(n.sound_file) + "}"@)))))
}

/// `null` or a JSON string at `i`.
pub open spec fn parse_opt_str_at(s: Seq<char>, i: int) -> Option<(Option<Seq<char>>, int)> {
    if at_lit(s, i, "null"@) {
        Some((None, i + 4))
    } else {
        match parse_jstr_at(s, i) {
            Some((x, j)) => Some((Some(x), j)),
            None => None,
        }
    }
}

/// One reminder in JSON at `i`: the reminder and the position after it.
pub open spec fn parse_nag_at(s: Seq<char>, i: int) -> Option<(NagV, int)> {
    match parse_lit_at(s, i, "{\"end_time\":\""@) {
        None => None,
        Some(j1) => match parse_rfc3339_at(s, j1) {
            None => None,
            Some((t, j2)) => match parse_lit_at(s, j2, "\",\"name\":"@) {
                None => None,
                Some(j3) => match parse_jstr_at(s, j3) {
                    None => None,
                    Some((nm, j4)) => match parse_lit_at(s, j4, ",\"sound_file\":"@) {
                        None => None,
                        Some(j5) => match parse_opt_str_at(s, j5) {
                            None => None,
                            Some((sf, j6)) => match parse_lit_at(s, j6, "}"@) {
                                None => None,
                                Some(j7) => Some(
                                    (NagV { end_time: t, name: nm, sound_file: sf }, j7),
                                ),
                            },
                        },
                    },
                },
            },
        },
    }
}

/// Appends `enc_nag(nag@)` to `out`.
fn push_nag_json(out: &mut Vec<char>, nag: &Nag)
    requires
        nag@.is_valid(),
    ensures
        final(out)@ == old(out)@ + enc_nag(nag@),
{
    push_str_chars(out, "{\"end_time\":\"");
    push_rfc3339(out, &nag.end_time);
    push_str_chars(out, "\",\"name\":");
    push_jstr(out, nag.name.as_str());
    push_str_chars(out, ",\"sound_file\":");
    match &nag.sound_file {
        Some(sf) => push_jstr(out, sf.as_str()),
        None => push_str_chars(out, "null"),
    }
    push_str_chars(out, "}");
    proof {
        assert(final(out)@ =~= old(out)@ + enc_nag(nag@));
    }
}

/// Parses one reminder, as `parse_nag_at` describes.
fn parse_nag(v: &Vec<char>, i: usize) -> (r: Option<(Nag, usize)>)
    ensures
        match r {
            Some((n, j)) => {
                &&& parse_nag_at(v@, i as int) == Some((n@, j as int))
                &&& n@.is_valid()
                &&& i < j <= v@.len()
            },
            None => parse_nag_at(v@, i as int) is None,
        },
{
    let j1 = match parse_lit(v, i, "{\"end_time\":\"") {
        Some(j) => j,
        None => {
            return None;
        },
    };
    let (t, j2) = match parse_rfc3339(v, j1) {
        Some(p) => p,
        None => {
            return None;
        },
    };
    let j3 = match parse_lit(v, j2, "\",\"name\":") {
        Some(j) => j,
        None => {
            return None;
        },
    };
    let (nm, j4) = match parse_jstr(v, j3) {
        Some(p) => p,
        None => {
            return None;
        },
    };
    let j5 = match parse_lit(v, j4, ",\"sound_file\":") {
        Some(j) => j,
        None => {
            return None;
        },
    };
    let (sf, j6): (Option<String>, usize) = if lit_at(v, j5, "null") {
        let n = v.len();
        proof {
            reveal_strlit("null");
        }
        (None, j5 + 4)
    } else {
        match parse_jstr(v, j5) {
            Some((x, j)) => (Some(chars_to_string(&x)), j),
            None => {
                return None;
            },
        }
    };
    let j7 = match parse_lit(v, j6, "}") {
        Some(j) => j,
        None => {
            return None;
        },
    };
    proof {
        reveal_strlit("{\"end_time\":\"");
    }
    Some((Nag { end_time: t, name: chars_to_string(&nm), sound_file: sf }, j7))
}

/// A written reminder reads back as itself.
proof fn lemma_nag_round_trip(n: NagV, s: Seq<char>, i: int)
    requires
        n.is_valid(),
        0 <= i,
        i + enc_nag(n).len() <= s.len(),
        s.subrange(i, i + enc_nag(n).len()) == enc_nag(n),
    ensures
        parse_nag_at(s, i) == Some((n, i + enc_nag(n).len())),
{
    let l1 = "{\"end_time\":\""@;
    let rfc = rfc3339_of(n.end_time as int);
    let l2 = "\",\"name\":"@;
    let nm = jstr(n.name);
    let l3 = ",\"sound_file\":"@;
    let snd = enc_opt_str(n.sound_file);
    let l4 = "}"@;
    let r1 = rfc + (l2 + (nm + (l3 + (snd + l4))));
    let r2 = l2 + (nm + (l3 + (snd + l4)));
    let r3 = nm + (l3 + (snd + l4));
    let r4 = l3 + (snd + l4);
    let r5 = snd + l4;
    lemma_split_prefix(s, i, l1, r1);
    let j1 = i + l1.len() as int;
    lemma_split_prefix(s, j1, rfc, r2);
    let j2 = j1 + 25;
    assert(s.subrange(j1, j1 + 25) == rfc);
    lemma_rfc3339_round_trip(n.end_time, s, j1);
    lemma_split_prefix(s, j2, l2, r3);
    let j3 = j2 + l2.len() as int;
    lemma_split_prefix(s, j3, nm, r4);
    lemma_jstr_round_trip(n.name, s, j3);
    let j4 = j3 + nm.len() as int;
    lemma_split_prefix(s, j4, l3, r5);
    let j5 = j4 + l3.len() as int;
    lemma_split_prefix(s, j5, snd, l4);
    let j6 = j5 + snd.len() as int;
    lemma_subrange_index(s, j6, l4);
    reveal_strlit("null");
    reveal_strlit("}");
    assert(s[j6 + 0] == l4[0]);
    match n.sound_file {
        Some(sf) => {
            lemma_subrange_index(s, j5, snd);
            assert(s[j5 + 0] == snd[0]);
            assert(snd[0] == '"');
            assert(!at_lit(s, j5, "null"@)) by {
                if at_lit(s, j5, "null"@) {
                    lemma_subrange_index(s, j5, "null"@);
                    assert(s[j5 + 0] == 'n');
                }
            }
            lemma_jstr_round_trip(sf, s, j5);
            assert(parse_opt_str_at(s, j5) == Some((Some(sf), j6)));
        },
        None => {
            assert(snd == "null"@);
            assert(at_lit(s, j5, snd));
            assert(parse_opt_str_at(s, j5) == Some((None::<Seq<char>>, j6)));
        },
    }
    assert(at_lit(s, j6, l4));
    assert(parse_lit_at(s, j6, l4) == Some(j6 + 1));
    assert(NagV { end_time: n.end_time, name: n.name, sound_file: n.sound_file } == n);
}

// ---------------------------------------------------------------------------
// Reminder lists in JSON
// ---------------------------------------------------------------------------

pub open spec fn enc_more_items(ns: Seq<NagV>) -> Seq<char>
    decreases ns.len(),
{
    if ns.len() == 0 {
        seq![]
    } else {
        seq![','] + (enc_nag(ns[0]) + enc_more_items(ns.subrange(1, ns.len() as int)))
    }
}

pub open spec fn enc_items(ns: Seq<NagV>) -> Seq<char> {
    if ns.len() == 0 {
        seq![]
    } else {
        enc_nag(ns[0]) + enc_more_items(ns.subrange(1, ns.len() as int))
    }
}

/// A JSON array of reminders.
pub open spec fn enc_nags(ns: Seq<NagV>) -> Seq<char> {
    seq!['['] + (enc_items(ns) + seq![']'])
}

/// The items after the first in a JSON reminder array, each preceded by a
/// comma, ended by the closing bracket.
pub open spec fn parse_more_at(s: Seq<char>, i: int) -> Option<(Seq<NagV>, int)>
    decreases s.len() - i,
{
    if !(0 <= i < s.len()) {
        None
    } else if s[i] == ']' {
        Some((seq![], i + 1))
    } else if s[i] == ',' {
        match parse_nag_at(s, i + 1) {
            Some((n, k)) => if i + 1 < k <= s.len() {
                match parse_more_at(s, k) {
                    Some((ns, m)) => Some((seq![n] + ns, m)),
                    None => None,
                }
            } else {
                None
            },
            None => None,
        }
    } else {
        None
    }
}

/// A whole JSON reminder array at `i`.
pub open spec fn parse_nags_at(s: Seq<char>, i: int) -> Option<(Seq<NagV>, int)> {
    if !(0 <= i < s.len()) || s[i] != '[' {
        None
    } else {
        let j = i + 1;
        if j < s.len() && s[j] == ']' {
            Some((seq![], j + 1))
        } else {
            match parse_nag_at(s, j) {
                Some((n, k)) => if j < k <= s.len() {
                    match parse_more_at(s, k) {
                        Some((ns, m)) => Some((seq![n] + ns, m)),
                        None => None,
                    }
                } else {
                    None
                },
                None => None,
            }
        }
    }
}

fn push_more_items(out: &mut Vec<char>, nags: &Vec<Nag>, i: usize)
    requires
        all_nags_valid(nags.deep_view()),
        i <= nags@.len(),
    ensures
        final(out)@ == old(out)@ + enc_more_items(
            nags.deep_view().subrange(i as int, nags.deep_view().len() as int),
        ),
    decreases nags@.len() - i,
{
    let ghost suf = nags.deep_view().subrange(i as int, nags.deep_view().len() as int);
    if i < nags.len() {
        proof {
            assert(suf[0] == nags@[i as int]@);
        }
        out.push(',');
        push_nag_json(out, &nags[i]);
        push_more_items(out, nags, i + 1);
        proof {
            assert(suf.subrange(1, suf.len() as int) =~= nags.deep_view().subrange(
                i as int + 1,
                nags.deep_view().len() as int,
            ));
            assert(final(out)@ =~= old(out)@ + enc_more_items(suf));
        }
    } else {
        proof {
            assert(suf =~= Seq::<NagV>::empty());
            assert(final(out)@ =~= old(out)@ + enc_more_items(suf));
        }
    }
}

/// Appends `enc_nags` of the list to `out`.
fn push_nags_json(out: &mut Vec<char>, nags: &Vec<Nag>)
    requires
        all_nags_valid(nags.deep_view()),
    ensures
        final(out)@ == old(out)@ + enc_nags(nags.deep_view()),
{
    let ghost all = nags.deep_view();
    out.push('[');
    if nags.len() > 0 {
        proof {
            assert(all[0] == nags@[0]@);
        }
        push_nag_json(out, &nags[0]);
        push_more_items(out, nags, 1);
        proof {
            assert(all.subrange(1, all.len() as int) =~= nags.deep_view().subrange(
                1,
                nags.deep_view().len() as int,
            ));
        }
    }
    out.push(']');
    proof {
        assert(final(out)@ =~= old(out)@ + enc_nags(all));
    }
}

/// Parses the items after the first, as `parse_more_at` describes.
fn parse_more(v: &Vec<char>, i: usize) -> (r: Option<(Vec<Nag>, usize)>)
    ensures
        match r {
            Some((ns, j)) => {
                &&& parse_more_at(v@, i as int) == Some((ns.deep_view(), j as int))
                &&& all_nags_valid(ns.deep_view())
                &&& i < j <= v@.len()
            },
            None => parse_more_at(v@, i as int) is None,
        },
    decreases v@.len() - i,
{
    if i >= v.len() {
        return None;
    }
    if v[i] == ']' {
        let e: Vec<Nag> = Vec::new();
        proof {
            assert(e.deep_view() =~~= Seq::<NagV>::empty());
        }
        return Some((e, i + 1));
    }
    if v[i] != ',' {
        return None;
    }
    let (n, k) = match parse_nag(v, i + 1) {
        Some(p) => p,
        None => {
            return None;
        },
    };
    let (ns, m) = match parse_more(v, k) {
        Some(p) => p,
        None => {
            return None;
        },
    };
    let ghost before = ns.deep_view();
    let mut ns = ns;
    ns.insert(0, n);
    proof {
        assert(ns.deep_view() =~~= seq![n@] + before);
    }
    Some((ns, m))
}

/// Parses a JSON reminder array, as `parse_nags_at` describes.
fn parse_nags(v: &Vec<char>, i: usize) -> (r: Option<(Vec<Nag>, usize)>)
    ensures
        match r {
            Some((ns, j)) => {
                &&& parse_nags_at(v@, i as int) == Some((ns.deep_view(), j as int))
                &&& all_nags_valid(ns.deep_view())
                &&& i < j <= v@.len()
            },
            None => parse_nags_at(v@, i as int) is None,
        },
{
    if i >= v.len() || v[i] != '[' {
        return None;
    }
    let j = i + 1;
    if j < v.len() && v[j] == ']' {
        let e: Vec<Nag> = Vec::new();
        proof {
            assert(e.deep_view() =~~= Seq::<NagV>::empty());
        }
        return Some((e, j + 1));
    }
    let (n, k) = match parse_nag(v, j) {
        Some(p) => p,
        None => {
            return None;
        },
    };
    let (ns, m) = match parse_more(v, k) {
        Some(p) => p,
        None => {
            return None;
        },
    };
    let ghost before = ns.deep_view();
    let mut ns = ns;
    ns.insert(0, n);
    proof {
        assert(ns.deep_view() =~~= seq![n@] + before);
    }
    Some((ns, m))
}

#[verifier::rlimit(60)]
#[verifier::spinoff_prover]
proof fn lemma_more_round_trip(ns: Seq<NagV>, s: Seq<char>, i: int)
    requires
        crate::nag::all_nags_valid(ns),
        0 <= i,
        i + enc_more_items(ns).len() + 1 <= s.len(),
        s.subrange(i, i + enc_more_items(ns).len()) == enc_more_items(ns),
        s[i + enc_more_items(ns).len()] == ']',
    ensures
        parse_more_at(s, i) == Some((ns, i + enc_more_items(ns).len() + 1)),
    decreases ns.len(),
{
    lemma_subrange_index(s, i, enc_more_items(ns));
    if ns.len() == 0 {
        assert(s[i] == s[i + enc_more_items(ns).len()]);
    } else {
        let rest = ns.subrange(1, ns.len() as int);
        let first = enc_nag(ns[0]);
        let b = first + enc_more_items(rest);
        assert(enc_more_items(ns) == seq![','] + b);
        assert(s[i + 0] == (seq![','] + b)[0]);
        assert(s[i] == ',');
        lemma_split_prefix(s, i, seq![','], b);
        lemma_split_prefix(s, i + 1, first, enc_more_items(rest));
        assert(ns[0].is_valid());
        lemma_nag_round_trip(ns[0], s, i + 1);
        let k = i + 1 + first.len() as int;
        assert(s[k + enc_more_items(rest).len()] == ']');
        assert(crate::nag::all_nags_valid(rest)) by {
            assert(forall|q: int| 0 <= q < rest.len() ==> rest[q] == ns[q + 1]);
        }
        lemma_more_round_trip(rest, s, k);
        assert(first.len() >= 25);
        assert(seq![ns[0]] + rest =~= ns);
    }
}

/// A written reminder array reads back as itself.
#[verifier::rlimit(60)]
#[verifier::spinoff_prover]
proof fn lemma_nags_round_trip(ns: Seq<NagV>, s: Seq<char>, i: int)
    requires
        crate::nag::all_nags_valid(ns),
        0 <= i,
        i + enc_nags(ns).len() <= s.len(),
        s.subrange(i, i + enc_nags(ns).len()) == enc_nags(ns),
    ensures
        parse_nags_at(s, i) == Some((ns, i + enc_nags(ns).len())),
{
    let inner = enc_items(ns) + seq![']'];
    lemma_split_prefix(s, i, seq!['['], inner);
    lemma_subrange_index(s, i, enc_nags(ns));
    assert(s[i + 0] == enc_nags(ns)[0]);
    assert(s[i] == '[');
    let j = i + 1;
    lemma_subrange_index(s, j, inner);
    if ns.len() == 0 {
        assert(enc_items(ns).len() == 0);
        assert(s[j + 0] == inner[0]);
        assert(s[j] == ']');
    } else {
        let rest = ns.subrange(1, ns.len() as int);
        let first = enc_nag(ns[0]);
        assert(enc_items(ns) == first + enc_more_items(rest));
        assert(inner =~= first + (enc_more_items(rest) + seq![']']));
        lemma_split_prefix(s, j, first, enc_more_items(rest) + seq![']']);
        assert(s[j + 0] == inner[0]);
        reveal_strlit("{\"end_time\":\"");
        assert(first[0] == '{') by {
            assert(first[0] == "{\"end_time\":\""@[0]);
        }
        assert(s[j] == '{');
        assert(ns[0].is_valid());
        lemma_nag_round_trip(ns[0], s, j);
        let k = j + first.len() as int;
        lemma_split_prefix(s, k, enc_more_items(rest), seq![']']);
        assert(enc_nags(ns)[1 + enc_items(ns).len() as int] == ']') by {
            assert((enc_items(ns) + seq![']'])[enc_items(ns).len() as int] == ']');
        }
        assert(s[i + (1 + enc_items(ns).len() as int)] == enc_nags(ns)[1 + enc_items(ns).len()
            as int]);
        assert(k + enc_more_items(rest).len() == i + (1 + enc_items(ns).len() as int));
        assert(s[k + enc_more_items(rest).len()] == ']');
        assert(crate::nag::all_nags_valid(rest)) by {
            assert(forall|q: int| 0 <= q < rest.len() ==> rest[q] == ns[q + 1]);
        }
        lemma_more_round_trip(rest, s, k);
        assert(first.len() >= 25);
        assert(seq![ns[0]] + rest =~= ns);
    }
}

// ---------------------------------------------------------------------------
// Commands in JSON
// ---------------------------------------------------------------------------

/// The JSON form of a request, as it travels on the wire.
pub open spec fn enc_command(c: CommandV) -> Seq<char> {
    match c {
        CommandV::AddNag { nag } => "{\"AddNag\":{\"nag\":"@ + (enc_nag(nag) + "}}"@),
        CommandV::ListNags => "{\"ListNags\":null}"@,
        CommandV::SetNags { nags } => "{\"SetNags\":{\"nags\":"@ + (enc_nags(nags) + "}}"@),
    }
}

/// The request a whole payload holds, or `None` when the payload is not the
/// canonical form of any request: any other rendering of the same document —
/// reordered keys, whitespace between tokens — is refused.
pub open spec fn parse_command(s: Seq<char>) -> Option<CommandV> {
    if at_lit(s, 0, "{\"AddNag\":{\"nag\":"@) {
        match parse_nag_at(s, "{\"AddNag\":{\"nag\":"@.len() as int) {
            Some((n, j)) => match parse_lit_at(s, j, "}}"@) {
                Some(m) => if m == s.len() {
                    Some(CommandV::AddNag { nag: n })
                } else {
                    None
                },
                None => None,
            },
            None => None,
        }
    } else if s == "{\"ListNags\":null}"@ {
        Some(CommandV::ListNags)
    } else if at_lit(s, 0, "{\"SetNags\":{\"nags\":"@) {
        match parse_nags_at(s, "{\"SetNags\":{\"nags\":"@.len() as int) {
            Some((ns, j)) => match parse_lit_at(s, j, "}}"@) {
                Some(m) => if m == s.len() {
                    Some(CommandV::SetNags { nags: ns })
                } else {
                    None
                },
                None => None,
            },
            None => None,
        }
    } else {
        None
    }
}

/// The canonical JSON payload of a request.
pub fn encode_command(command: &Command) -> (r: String)
    requires
        command@.is_valid(),
    ensures
        r@ == enc_command(command@),
{
    let mut out: Vec<char> = Vec::new();
    match command {
        Command::AddNag { nag } => {
            push_str_chars(&mut out, "{\"AddNag\":{\"nag\":");
            push_nag_json(&mut out, nag);
            push_str_chars(&mut out, "}}");
        },
        Command::ListNags => {
            push_str_chars(&mut out, "{\"ListNags\":null}");
        },
        Command::SetNags { nags } => {
            push_str_chars(&mut out, "{\"SetNags\":{\"nags\":");
            push_nags_json(&mut out, nags);
            push_str_chars(&mut out, "}}");
        },
    }
    proof {
        assert(out@ =~= enc_command(command@));
    }
    chars_to_string(&out)
}

/// The request a payload holds, as `parse_command` describes. Only the
/// canonical rendering is accepted: a request written with extra whitespace
/// or another key order is refused like any malformed payload.
pub fn decode_command(payload: &str) -> (r: Result<Command, String>)
    ensures
        match r {
            Result::Ok(c) => parse_command(payload@) == Some(c@) && c@.is_valid(),
            Result::Err(m) => parse_command(payload@) is None && m@
                == "unrecognized command payload"@,
        },
{
    let v = str_to_chars(payload);
    let err = "unrecognized command payload";
    if lit_at(&v, 0, "{\"AddNag\":{\"nag\":") {
        let j0 = match parse_lit(&v, 0, "{\"AddNag\":{\"nag\":") {
            Some(j) => j,
            None => {
                return Result::Err(String::from_str(err));
            },
        };
        match parse_nag(&v, j0) {
            Some((n, j)) => match parse_lit(&v, j, "}}") {
                Some(m) if m == v.len() => Result::Ok(Command::AddNag { nag: n }),
                _ => Result::Err(String::from_str(err)),
            },
            None => Result::Err(String::from_str(err)),
        }
    } else if lit_at(&v, 0, "{\"ListNags\":null}") && v.len() == "{\"ListNags\":null}".unicode_len()
    {
        proof {
            assert(payload@ =~= "{\"ListNags\":null}"@);
        }
        Result::Ok(Command::ListNags)
    } else if lit_at(&v, 0, "{\"SetNags\":{\"nags\":") {
        proof {
            if payload@ == "{\"ListNags\":null}"@ {
                assert(payload@.subrange(0, "{\"ListNags\":null}"@.len() as int) =~= payload@);
            }
        }
        let j0 = match parse_lit(&v, 0, "{\"SetNags\":{\"nags\":") {
            Some(j) => j,
            None => {
                return Result::Err(String::from_str(err));
            },
        };
        match parse_nags(&v, j0) {
            Some((ns, j)) => match parse_lit(&v, j, "}}") {
                Some(m) if m == v.len() => Result::Ok(Command::SetNags { nags: ns }),
                _ => Result::Err(String::from_str(err)),
            },
            None => Result::Err(String::from_str(err)),
        }
    } else {
        proof {
            if payload@ == "{\"ListNags\":null}"@ {
                assert(payload@.subrange(0, "{\"ListNags\":null}"@.len() as int) =~= payload@);
            }
        }
        Result::Err(String::from_str(err))
    }
}

/// Round trip: decoding an encoded request yields the request again.
pub proof fn lemma_command_round_trip(c: CommandV)
    requires
        c.is_valid(),
    ensures
        parse_command(enc_command(c)) == Some(c),
{
    reveal_strlit("{\"AddNag\":{\"nag\":");
    reveal_strlit("{\"ListNags\":null}");
    reveal_strlit("{\"SetNags\":{\"nags\":");
    reveal_strlit("}}");
    let s = enc_command(c);
    match c {
        CommandV::AddNag { nag } => {
            let l1 = "{\"AddNag\":{\"nag\":"@;
            let tail = enc_nag(nag) + "}}"@;
            assert(s.subrange(0, s.len() as int) =~= s);
            lemma_split_prefix(s, 0, l1, tail);
            lemma_split_prefix(s, 0 + l1.len() as int, enc_nag(nag), "}}"@);
            lemma_nag_round_trip(nag, s, l1.len() as int);
        },
        CommandV::ListNags => {
            assert(!at_lit(s, 0, "{\"AddNag\":{\"nag\":"@)) by {
                if at_lit(s, 0, "{\"AddNag\":{\"nag\":"@) {
                    let lad = "{\"AddNag\":{\"nag\":"@;
                    assert(s.subrange(0, lad.len() as int)[2] == lad[2]);
                }
            }
        },
        CommandV::SetNags { nags } => {
            let l1 = "{\"SetNags\":{\"nags\":"@;
            let tail = enc_nags(nags) + "}}"@;
            assert(s.subrange(0, s.len() as int) =~= s);
            lemma_split_prefix(s, 0, l1, tail);
            lemma_split_prefix(s, 0 + l1.len() as int, enc_nags(nags), "}}"@);
            lemma_nags_round_trip(nags, s, l1.len() as int);
            lemma_subrange_index(s, 0, l1);
            assert(!at_lit(s, 0, "{\"AddNag\":{\"nag\":"@)) by {
                if at_lit(s, 0, "{\"AddNag\":{\"nag\":"@) {
                    lemma_subrange_index(s, 0, "{\"AddNag\":{\"nag\":"@);
                    assert(s[0int + 2] == 'A');
                    assert(s[0int + 2] == 'S');
                }
            }
            assert(s != "{\"ListNags\":null}"@) by {
                if s == "{\"ListNags\":null}"@ {
                    assert(s[0int + 2] == 'S');
                }
            }
        },
    }
}

// ---------------------------------------------------------------------------
// Responses in JSON
// ---------------------------------------------------------------------------

pub open spec fn enc_code(code: ErrorCode) -> Seq<char> {
    match code {
        ErrorCode::OK => "\"OK\""@,
        ErrorCode::InvalidFormat => "\"InvalidFormat\""@,
        ErrorCode::UnknownCommand => "\"UnknownCommand\""@,
        ErrorCode::NotImplemented => "\"NotImplemented\""@,
    }
}

pub open spec fn parse_code_at(s: Seq<char>, i: int) -> Option<(ErrorCode, int)> {
    if at_lit(s, i, "\"OK\""@) {
        Some((ErrorCode::OK, i + "\"OK\""@.len() as int))
    } else if at_lit(s, i, "\"InvalidFormat\""@) {
        Some((ErrorCode::InvalidFormat, i + "\"InvalidFormat\""@.len() as int))
    } else if at_lit(s, i, "\"UnknownCommand\""@) {
        Some((ErrorCode::UnknownCommand, i + "\"UnknownCommand\""@.len() as int))
    } else if at_lit(s, i, "\"NotImplemented\""@) {
        Some((ErrorCode::NotImplemented, i + "\"NotImplemented\""@.len() as int))
    } else {
        None
    }
}

fn parse_code(v: &Vec<char>, i: usize) -> (r: Option<(ErrorCode, usize)>)
    ensures
        match r {
            Some((code, j)) => parse_code_at(v@, i as int) == Some((code, j as int)) && i <= j
                <= v@.len(),
            None => parse_code_at(v@, i as int) is None,
        },
{
    if let Some(j) = parse_lit(v, i, "\"OK\"") {
        Some((ErrorCode::OK, j))
    } else if let Some(j) = parse_lit(v, i, "\"InvalidFormat\"") {
        Some((ErrorCode::InvalidFormat, j))
    } else if let Some(j) = parse_lit(v, i, "\"UnknownCommand\"") {
        Some((ErrorCode::UnknownCommand, j))
    } else if let Some(j) = parse_lit(v, i, "\"NotImplemented\"") {
        Some((ErrorCode::NotImplemented, j))
    } else {
        None
    }
}

/// The JSON form of a reply, as it travels on the wire.
pub open spec fn enc_response(r: ResponseV) -> Seq<char> {
    match r {
        ResponseV::Okay => "\"Ok\""@,
        ResponseV::Error { code, msg } => "{\"Error\":{\"code\":"@ + (enc_code(code) + (
        ",\"msg\":"@ + (enc_opt_str(msg) + "}}"@))),
        ResponseV::NagList { nags } => "{\"NagList\":{\"nags\":"@ + (enc_nags(nags) + "}}"@),
    }
}

/// The reply a whole payload holds, or `None` when the payload is not the
/// canonical form of any reply: any other rendering of the same document —
/// reordered keys, whitespace between tokens — is refused.
pub open spec fn parse_response(s: Seq<char>) -> Option<ResponseV> {
    if s == "\"Ok\""@ {
        Some(ResponseV::Okay)
    } else if at_lit(s, 0, "{\"Error\":{\"code\":"@) {
        match parse_code_at(s, "{\"Error\":{\"code\":"@.len() as int) {
            Some((code, j1)) => match parse_lit_at(s, j1, ",\"msg\":"@) {
                Some(j2) => match parse_opt_str_at(s, j2) {
                    Some((msg, j3)) => match parse_lit_at(s, j3, "}}"@) {
                        Some(m) => if m == s.len() {
                            Some(ResponseV::Error { code, msg })
                        } else {
                            None
                        },
                        None => None,
                    },
                    None => None,
                },
                None => None,
            },
            None => None,
        }
    } else if at_lit(s, 0, "{\"NagList\":{\"nags\":"@) {
        match parse_nags_at(s, "{\"NagList\":{\"nags\":"@.len() as int) {
            Some((ns, j)) => match parse_lit_at(s, j, "}}"@) {
                Some(m) => if m == s.len() {
                    Some(ResponseV::NagList { nags: ns })
                } else {
                    None
                },
                None => None,
            },
            None => None,
        }
    } else {
        None
    }
}

/// The canonical JSON payload of a reply.
pub fn encode_response(response: &Response) -> (r: String)
    requires
        response@.is_valid(),
    ensures
        r@ == enc_response(response@),
{
    let mut out: Vec<char> = Vec::new();
    match response {
        Response::Okay => {
            push_str_chars(&mut out, "\"Ok\"");
        },
        Response::Error { code, msg } => {
            push_str_chars(&mut out, "{\"Error\":{\"code\":");
            match code {
                ErrorCode::OK => push_str_chars(&mut out, "\"OK\""),
                ErrorCode::InvalidFormat => push_str_chars(&mut out, "\"InvalidFormat\""),
                ErrorCode::UnknownCommand => push_str_chars(&mut out, "\"UnknownCommand\""),
                ErrorCode::NotImplemented => push_str_chars(&mut out, "\"NotImplemented\""),
            }
            push_str_chars(&mut out, ",\"msg\":");
            match msg {
                Some(m) => push_jstr(&mut out, m.as_str()),
                None => push_str_chars(&mut out, "null"),
            }
            push_str_chars(&mut out, "}}");
        },
        Response::NagList { nags } => {
            push_str_chars(&mut out, "{\"NagList\":{\"nags\":");
            push_nags_json(&mut out, nags);
            push_str_chars(&mut out, "}}");
        },
    }
    proof {
        assert(out@ =~= enc_response(response@));
    }
    chars_to_string(&out)
}

/// The reply a payload holds, as `parse_response` describes. Only the
/// canonical rendering is accepted: a reply written with extra whitespace or
/// another key order is refused like any malformed payload.
pub fn decode_response(payload: &str) -> (r: Result<Response, String>)
    ensures
        match r {
            Result::Ok(resp) => parse_response(payload@) == Some(resp@) && resp@.is_valid(),
            Result::Err(m) => parse_response(payload@) is None && m@
                == "unrecognized response payload"@,
        },
{
    let v = str_to_chars(payload);
    let err = "unrecognized response payload";
    if lit_at(&v, 0, "\"Ok\"") && v.len() == "\"Ok\"".unicode_len() {
        proof {
            assert(payload@ =~= "\"Ok\""@);
        }
        return Result::Ok(Response::Okay);
    }
    proof {
        if payload@ == "\"Ok\""@ {
            assert(payload@.subrange(0, "\"Ok\""@.len() as int) =~= payload@);
        }
    }
    if lit_at(&v, 0, "{\"Error\":{\"code\":") {
        let j0 = match parse_lit(&v, 0, "{\"Error\":{\"code\":") {
            Some(j) => j,
            None => {
                return Result::Err(String::from_str(err));
            },
        };
        let (code, j1) = match parse_code(&v, j0) {
            Some(p) => p,
            None => {
                return Result::Err(String::from_str(err));
            },
        };
        let j2 = match parse_lit(&v, j1, ",\"msg\":") {
            Some(j) => j,
            None => {
                return Result::Err(String::from_str(err));
            },
        };
        let (msg, j3): (Option<String>, usize) = if lit_at(&v, j2, "null") {
            let n = v.len();
            proof {
                reveal_strlit("null");
            }
            (None, j2 + 4)
        } else {
            match parse_jstr(&v, j2) {
                Some((x, j)) => (Some(chars_to_string(&x)), j),
                None => {
                    return Result::Err(String::from_str(err));
                },
            }
        };
        match parse_lit(&v, j3, "}}") {
            Some(m) if m == v.len() => Result::Ok(Response::Error { code, msg }),
            _ => Result::Err(String::from_str(err)),
        }
    } else if lit_at(&v, 0, "{\"NagList\":{\"nags\":") {
        let j0 = match parse_lit(&v, 0, "{\"NagList\":{\"nags\":") {
            Some(j) => j,
            None => {
                return Result::Err(String::from_str(err));
            },
        };
        match parse_nags(&v, j0) {
            Some((ns, j)) => match parse_lit(&v, j, "}}") {
                Some(m) if m == v.len() => Result::Ok(Response::NagList { nags: ns }),
                _ => Result::Err(String::from_str(err)),
            },
            None => Result::Err(String::from_str(err)),
        }
    } else {
        Result::Err(String::from_str(err))
    }
}

/// Round trip: decoding an encoded reply yields the reply again.
pub proof fn lemma_response_round_trip(r: ResponseV)
    requires
        r.is_valid(),
    ensures
        parse_response(enc_response(r)) == Some(r),
{
    reveal_strlit("\"Ok\"");
    reveal_strlit("{\"Error\":{\"code\":");
    reveal_strlit("{\"NagList\":{\"nags\":");
    reveal_strlit(",\"msg\":");
    reveal_strlit("}}");
    reveal_strlit("\"OK\"");
    reveal_strlit("\"InvalidFormat\"");
    reveal_strlit("\"UnknownCommand\"");
    reveal_strlit("\"NotImplemented\"");
    reveal_strlit("null");
    let s = enc_response(r);
    match r {
        ResponseV::Okay => {
        },
        ResponseV::Error { code, msg } => {
            let l1 = "{\"Error\":{\"code\":"@;
            let r1 = enc_code(code) + (",\"msg\":"@ + (enc_opt_str(msg) + "}}"@));
            let r2 = ",\"msg\":"@ + (enc_opt_str(msg) + "}}"@);
            let r3 = enc_opt_str(msg) + "}}"@;
            assert(s.subrange(0, s.len() as int) =~= s);
            lemma_split_prefix(s, 0, l1, r1);
            let j0 = l1.len() as int;
            lemma_split_prefix(s, j0, enc_code(code), r2);
            let j1 = j0 + enc_code(code).len() as int;
            lemma_split_prefix(s, j1, ",\"msg\":"@, r3);
            let j2 = j1 + ",\"msg\":"@.len() as int;
            lemma_split_prefix(s, j2, enc_opt_str(msg), "}}"@);
            let j3 = j2 + enc_opt_str(msg).len() as int;
            // the code reads back
            lemma_subrange_index(s, j0, enc_code(code));
            match code {
                ErrorCode::OK => {
                },
                ErrorCode::InvalidFormat => {
                    assert(!at_lit(s, j0, "\"OK\""@)) by {
                        if at_lit(s, j0, "\"OK\""@) {
                            lemma_subrange_index(s, j0, "\"OK\""@);
                            assert(s[j0 + 1] == 'O');
                            assert(s[j0 + 1] == 'I');
                        }
                    }
                },
                ErrorCode::UnknownCommand => {
                    assert(!at_lit(s, j0, "\"OK\""@) && !at_lit(s, j0, "\"InvalidFormat\""@)) by {
                        if at_lit(s, j0, "\"OK\""@) {
                            lemma_subrange_index(s, j0, "\"OK\""@);
                            assert(s[j0 + 1] == 'O');
                            assert(s[j0 + 1] == 'U');
                        }
                        if at_lit(s, j0, "\"InvalidFormat\""@) {
                            lemma_subrange_index(s, j0, "\"InvalidFormat\""@);
                            assert(s[j0 + 1] == 'I');
                            assert(s[j0 + 1] == 'U');
                        }
                    }
                },
                ErrorCode::NotImplemented => {
                    assert(!at_lit(s, j0, "\"OK\""@) && !at_lit(s, j0, "\"InvalidFormat\""@)
                        && !at_lit(s, j0, "\"UnknownCommand\""@)) by {
                        if at_lit(s, j0, "\"OK\""@) {
                            lemma_subrange_index(s, j0, "\"OK\""@);
                            assert(s[j0 + 1] == 'O');
                            assert(s[j0 + 1] == 'N');
                        }
                        if at_lit(s, j0, "\"InvalidFormat\""@) {
                            lemma_subrange_index(s, j0, "\"InvalidFormat\""@);
                            assert(s[j0 + 1] == 'I');
                            assert(s[j0 + 1] == 'N');
                        }
                        if at_lit(s, j0, "\"UnknownCommand\""@) {
                            lemma_subrange_index(s, j0, "\"UnknownCommand\""@);
                            assert(s[j0 + 1] == 'U');
                            assert(s[j0 + 1] == 'N');
                        }
                    }
                },
            }
            assert(parse_code_at(s, j0) == Some((code, j1)));
            // the message reads back
            match msg {
                Some(m) => {
                    lemma_subrange_index(s, j2, enc_opt_str(msg));
                    assert(s[j2 + 0] == '"');
                    assert(!at_lit(s, j2, "null"@)) by {
                        if at_lit(s, j2, "null"@) {
                            lemma_subrange_index(s, j2, "null"@);
                            assert(s[j2 + 0] == 'n');
                        }
                    }
                    lemma_jstr_round_trip(m, s, j2);
                },
                None => {
                    assert(at_lit(s, j2, "null"@));
                },
            }
            assert(parse_opt_str_at(s, j2) == Some((msg, j3)));
            // the whole reply is not mistaken for a bare success
            assert(s != "\"Ok\""@) by {
                if s == "\"Ok\""@ {
                    lemma_subrange_index(s, 0, l1);
                    assert(s[0] == '{');
                }
            }
        },
        ResponseV::NagList { nags } => {
            let l1 = "{\"NagList\":{\"nags\":"@;
            let tail = enc_nags(nags) + "}}"@;
            assert(s.subrange(0, s.len() as int) =~= s);
            lemma_split_prefix(s, 0, l1, tail);
            lemma_split_prefix(s, 0 + l1.len() as int, enc_nags(nags), "}}"@);
            lemma_nags_round_trip(nags, s, l1.len() as int);
            lemma_subrange_index(s, 0, l1);
            assert(s != "\"Ok\""@) by {
                if s == "\"Ok\""@ {
                    assert(s[0int + 0] == '{');
                }
            }
            assert(!at_lit(s, 0, "{\"Error\":{\"code\":"@)) by {
                if at_lit(s, 0, "{\"Error\":{\"code\":"@) {
                    lemma_subrange_index(s, 0, "{\"Error\":{\"code\":"@);
                    assert(s[0int + 2] == 'E');
                    assert(s[0int + 2] == 'N');
                }
            }
        },
    }
}

} // verus!
