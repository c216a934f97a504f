//! Reminders ("nags") and their line-oriented text form.
//!
//! A [`Nag`] names a reminder, fixes the instant it expires, and may name a
//! sound file. The text form, one reminder per line as
//! `"<RFC 3339 end time>","<name>"[,"<sound file>"]`, is what the bulk-edit
//! workflow writes out and reads back; when reading, the first field may
//! instead be a relative duration such as `"1h30m"`, taken from the moment of
//! parsing, and malformed lines are skipped rather than failing the read.

use crate::text::{split_on, split_chars, trim_quotes, trim_quote_chars, chars_to_string,
    str_to_chars, dec_digits, push_dec, push_str_chars, lemma_split_first, lemma_split_absent,
    lemma_trim_quoted, lemma_add_avoids};
use crate::time::{lemma_rfc3339_round_trip, lemma_rfc3339_no_delimiters};
use vstd::string::StringExecFns;
use crate::time::{Timestamp, max_secs, rfc3339_of, push_rfc3339, parse_rfc3339_at, parse_rfc3339,
    duration_secs_of, parse_duration_secs};
use vstd::prelude::*;

verus! {

/// A reminder: a display name, an absolute expiry instant, and an optional
/// sound file to play when it expires.
#[derive(Debug)]
pub struct Nag {
    pub end_time: Timestamp,
    pub name: String,
    pub sound_file: Option<String>,
}

/// The mathematical value of a [`Nag`].
pub struct NagV {
    pub end_time: u64,
    pub name: Seq<char>,
    pub sound_file: Option<Seq<char>>,
}

impl NagV {
    /// The expiry instant lies before year 10000.
    pub open spec fn is_valid(self) -> bool {
        self.end_time < max_secs()
    }
}

impl View for Nag {
    type V = NagV;

    open spec fn view(&self) -> NagV {
        NagV {
            end_time: self.end_time.secs,
            name: self.name@,
            sound_file: match self.sound_file {
                Some(s) => Some(s@),
                None => None,
            },
        }
    }
}

impl DeepView for Nag {
    type V = NagV;

    open spec fn deep_view(&self) -> NagV {
        self@
    }
}

impl Clone for Nag {
    /// An equal reminder.
    fn clone(&self) -> (r: Self)
        ensures
            r@ == self@,
    {
        Nag {
            end_time: self.end_time,
            name: self.name.clone(),
            sound_file: match &self.sound_file {
                Some(s) => Some(s.clone()),
                None => None,
            },
        }
    }
}

impl PartialEq for Nag {
    /// Structural equality: all three fields equal.
    fn eq(&self, other: &Self) -> (r: bool) {
        self.end_time.secs == other.end_time.secs && self.name == other.name && match (
            &self.sound_file,
            &other.sound_file,
        ) {
            (Some(a), Some(b)) => a.eq(b),
            (None, None) => true,
            _ => false,
        }
    }
}

impl vstd::std_specs::cmp::PartialEqSpecImpl for Nag {
    open spec fn obeys_eq_spec() -> bool {
        true
    }

    open spec fn eq_spec(&self, other: &Self) -> bool {
        self@ == other@
    }
}

/// An element-wise copy of a reminder list.
pub fn clone_nags(nags: &Vec<Nag>) -> (r: Vec<Nag>)
    ensures
        r.deep_view() == nags.deep_view(),
{
    let mut r: Vec<Nag> = Vec::new();
    let mut i: usize = 0;
    while i < nags.len()
        invariant
            i <= nags@.len(),
            r.deep_view() == nags.deep_view().take(i as int),
        decreases nags@.len() - i,
    {
        let ghost old_r = r.deep_view();
        r.push(nags[i].clone());
        proof {
            assert(r@.len() == old_r.len() + 1);
            assert(r.deep_view()[old_r.len() as int] == nags@[i as int]@);
            assert(forall|k: int| 0 <= k < old_r.len() ==> r.deep_view()[k] == old_r[k]);
            assert(r.deep_view() =~~= nags.deep_view().take(i as int + 1));
        }
        i = i + 1;
    }
    proof {
        assert(nags.deep_view().take(nags@.len() as int) =~= nags.deep_view());
    }
    r
}

/// Whether two reminder lists hold equal reminders in the same order.
pub fn nags_equal(a: &Vec<Nag>, b: &Vec<Nag>) -> (r: bool)
    ensures
        r == (a.deep_view() == b.deep_view()),
{
    if a.len() != b.len() {
        proof {
            assert(a.deep_view().len() != b.deep_view().len());
        }
        return false;
    }
    let mut i: usize = 0;
    while i < a.len()
        invariant
            i <= a@.len() == b@.len(),
            forall|k: int| 0 <= k < i ==> a.deep_view()[k] == b.deep_view()[k],
        decreases a@.len() - i,
    {
        if !(a[i].eq(&b[i])) {
            proof {
                assert(a.deep_view()[i as int] != b.deep_view()[i as int]);
            }
            return false;
        }
        i = i + 1;
    }
    proof {
        assert(a.deep_view() =~= b.deep_view());
    }
    true
}

// ---------------------------------------------------------------------------
// Time remaining, as shown to people
// ---------------------------------------------------------------------------

/// The time from `now` until `end`, written as days, hours, minutes and
/// seconds, each part left out when zero; `"0"` when `end` has passed.
pub open spec fn time_remaining_of(end: u64, now: u64) -> Seq<char> {
    if end < now {
        seq!['0']
    } else {
        let secs = end - now;
        let days = secs / 86400;
        let hl = secs % 86400;
        let hours = hl / 3600;
        let ml = hl % 3600;
        let minutes = ml / 60;
        let sl = ml % 60;
        (if days > 0 {
            dec_digits(days) + seq!['d']
        } else {
            seq![]
        }) + (if hours > 0 {
            dec_digits(hours) + seq!['h']
        } else {
            seq![]
        }) + (if minutes > 0 {
            dec_digits(minutes) + seq!['m']
        } else {
            seq![]
        }) + (if sl > 0 {
            dec_digits(sl) + seq!['s']
        } else {
            seq![]
        })
    }
}

/// The time from `now` until `end_time`, as `time_remaining_of` describes.
#[must_use]
pub fn time_remaining(end_time: &Timestamp, now: &Timestamp) -> (r: String)
    ensures
        r@ == time_remaining_of(end_time.secs, now.secs),
{
    let mut out: Vec<char> = Vec::new();
    if end_time.secs < now.secs {
        out.push('0');
        proof {
            assert(out@ =~= time_remaining_of(end_time.secs, now.secs));
        }
        return chars_to_string(&out);
    }
    let secs = end_time.secs - now.secs;
    let days = secs / 86400;
    let hl = secs % 86400;
    let hours = hl / 3600;
    let ml = hl % 3600;
    let minutes = ml / 60;
    let sl = ml % 60;
    if days > 0 {
        push_dec(&mut out, days);
        out.push('d');
    }
    if hours > 0 {
        push_dec(&mut out, hours);
        out.push('h');
    }
    if minutes > 0 {
        push_dec(&mut out, minutes);
        out.push('m');
    }
    if sl > 0 {
        push_dec(&mut out, sl);
        out.push('s');
    }
    proof {
        assert(out@ =~= time_remaining_of(end_time.secs, now.secs));
    }
    chars_to_string(&out)
}

// ---------------------------------------------------------------------------
// One reminder per line
// ---------------------------------------------------------------------------

/// The line form of a reminder:
/// `"<RFC 3339 end time>","<name>"[,"<sound file>"]`.
pub open spec fn nag_line_of(n: NagV) -> Seq<char> {
    seq!['"'] + rfc3339_of(n.end_time as int) + seq!['"', ',', '"'] + n.name + seq!['"'] + match n
        .sound_file {
        Some(sf) => seq![',', '"'] + sf + seq!['"'],
        None => seq![],
    }
}

/// Appends `nag_line_of(nag@)` to `out`.
fn push_nag_line(out: &mut Vec<char>, nag: &Nag)
    requires
        nag@.is_valid(),
    ensures
        final(out)@ == old(out)@ + nag_line_of(nag@),
{
    out.push('"');
    push_rfc3339(out, &nag.end_time);
    out.push('"');
    out.push(',');
    out.push('"');
    push_str_chars(out, self_name(nag));
    out.push('"');
    match &nag.sound_file {
        Some(sf) => {
            out.push(',');
            out.push('"');
            push_str_chars(out, sf.as_str());
            out.push('"');
        },
        None => {},
    }
    proof {
        assert(final(out)@ =~= old(out)@ + nag_line_of(nag@));
    }
}

fn self_name(nag: &Nag) -> (r: &str)
    ensures
        r@ == nag@.name,
{
    nag.name.as_str()
}

/// The line form of one reminder, as `nag_line_of` describes.
#[must_use]
pub fn nag_to_line(nag: &Nag) -> (r: String)
    requires
        nag@.is_valid(),
    ensures
        r@ == nag_line_of(nag@),
{
    let mut out: Vec<char> = Vec::new();
    push_nag_line(&mut out, nag);
    chars_to_string(&out)
}

/// The text form of a whole list: one line per reminder, each ended by a
/// newline.
pub open spec fn nags_text_of(s: Seq<NagV>) -> Seq<char>
    decreases s.len(),
{
    if s.len() == 0 {
        seq![]
    } else {
        nags_text_of(s.drop_last()) + nag_line_of(s.last()) + seq!['\n']
    }
}

pub open spec fn all_nags_valid(s: Seq<NagV>) -> bool {
    forall|i: int| 0 <= i < s.len() ==> (#[trigger] s[i]).is_valid()
}

/// The text form of `nags`, as `nags_text_of` describes.
pub fn nags_to_text(nags: &Vec<Nag>) -> (r: String)
    requires
        all_nags_valid(nags.deep_view()),
    ensures
        r@ == nags_text_of(nags.deep_view()),
{
    let mut out: Vec<char> = Vec::new();
    let mut i: usize = 0;
    while i < nags.len()
        invariant
            i <= nags@.len(),
            all_nags_valid(nags.deep_view()),
            nags.deep_view().len() == nags@.len(),
            out@ == nags_text_of(nags.deep_view().take(i as int)),
        decreases nags@.len() - i,
    {
        proof {
            assert(nags.deep_view()[i as int] == nags@[i as int]@);
        }
        push_nag_line(&mut out, &nags[i]);
        out.push('\n');
        proof {
            assert(nags.deep_view().take(i as int + 1).drop_last() =~= nags.deep_view().take(
                i as int,
            ));
            assert(out@ =~= nags_text_of(nags.deep_view().take(i as int + 1)));
        }
        i = i + 1;
    }
    proof {
        assert(nags.deep_view().take(nags@.len() as int) =~= nags.deep_view());
    }
    chars_to_string(&out)
}

// ---------------------------------------------------------------------------
// Reading the text form back
// ---------------------------------------------------------------------------

/// The expiry instant of a relative-duration first field: the duration taken
/// from `now`, when it parses and stays in range.
pub open spec fn duration_end_of(ts_text: Seq<char>, now: u64) -> Option<u64> {
    match duration_secs_of(ts_text) {
        Some(d) => if now + d < max_secs() {
            Some((now + d) as u64)
        } else {
            None
        },
        None => None,
    }
}

/// The reminder on one line of the text form, or `None` for a line to skip.
/// The first field may be an RFC 3339 instant or a relative duration from
/// `now`; the third field, when present and not `None`, names a sound file.
pub open spec fn parse_nag_line(line: Seq<char>, now: u64) -> Option<NagV> {
    let parts = split_on(line, ',');
    if parts.len() < 2 {
        None
    } else {
        let ts_text = trim_quotes(parts[0]);
        let end = match parse_rfc3339_at(ts_text, 0) {
            Some((t, j)) => if j == ts_text.len() {
                Some(t)
            } else {
                duration_end_of(ts_text, now)
            },
            None => duration_end_of(ts_text, now),
        };
        match end {
            None => None,
            Some(t) => Some(
                NagV {
                    end_time: t,
                    name: trim_quotes(parts[1]),
                    sound_file: if parts.len() > 2 && parts[2] != seq!['N', 'o', 'n', 'e'] {
                        Some(trim_quotes(parts[2]))
                    } else {
                        None
                    },
                },
            ),
        }
    }
}

/// The reminders on the given lines, in order, skipping lines that parse to
/// nothing.
pub open spec fn parse_nag_lines(lines: Seq<Seq<char>>, now: u64) -> Seq<NagV>
    decreases lines.len(),
{
    if lines.len() == 0 {
        seq![]
    } else {
        parse_nag_lines(lines.drop_last(), now) + match parse_nag_line(lines.last(), now) {
            Some(n) => seq![n],
            None => seq![],
        }
    }
}

fn eq_none_literal(v: &Vec<char>) -> (r: bool)
    ensures
        r == (v@ == seq!['N', 'o', 'n', 'e']),
{
    if v.len() != 4 {
        proof {
            assert(v@ != seq!['N', 'o', 'n', 'e']);
        }
        return false;
    }
    let r = v[0] == 'N' && v[1] == 'o' && v[2] == 'n' && v[3] == 'e';
    proof {
        if r {
            assert(v@ =~= seq!['N', 'o', 'n', 'e']);
        }
    }
    r
}

fn parse_nag_line_chars(line: &Vec<char>, now: &Timestamp) -> (r: Option<Nag>)
    ensures
        match r {
            Some(n) => parse_nag_line(line@, now.secs) == Some(n@) && n@.is_valid(),
            None => parse_nag_line(line@, now.secs) is None,
        },
{
    let parts = split_chars(line, ',');
    if parts.len() < 2 {
        return None;
    }
    proof {
        assert(parts.deep_view()[0] == parts@[0]@);
        assert(parts.deep_view()[1] == parts@[1]@);
    }
    let ts_text = trim_quote_chars(&parts[0]);
    let end: Timestamp = match parse_rfc3339(&ts_text, 0) {
        Some((t, j)) if j == ts_text.len() => t,
        _ => {
            let ts_string = chars_to_string(&ts_text);
            match parse_duration_secs(ts_string.as_str()) {
                Some(d) => match now.add_secs(d) {
                    Some(t) => t,
                    None => {
                        return None;
                    },
                },
                None => {
                    return None;
                },
            }
        },
    };
    let name = chars_to_string(&trim_quote_chars(&parts[1]));
    proof {
        if parts@.len() > 2 {
            assert(parts.deep_view()[2] == parts@[2]@);
        }
    }
    let sound_file: Option<String> = if parts.len() > 2 && !eq_none_literal(&parts[2]) {
        Some(chars_to_string(&trim_quote_chars(&parts[2])))
    } else {
        None
    };
    Some(Nag { end_time: end, name, sound_file })
}

/// The reminder a client's add request names: expiry at `now` plus the given
/// relative duration, or `None` when the duration does not parse or reaches
/// past year 9999.
pub fn nag_from_duration(duration: &str, name: &str, sound_file: Option<String>, now: &Timestamp)
    -> (r: Option<Nag>)
    ensures
        match r {
            Some(n) => {
                &&& duration_end_of(duration@, now.secs) == Some(n@.end_time)
                &&& n@.name == name@
                &&& n@.sound_file == (match sound_file {
                    Some(sf) => Some(sf@),
                    None => None::<Seq<char>>,
                })
                &&& n@.is_valid()
            },
            None => duration_end_of(duration@, now.secs) is None,
        },
{
    let seconds = match parse_duration_secs(duration) {
        Some(seconds) => seconds,
        None => {
            return None;
        },
    };
    let end_time = match now.add_secs(seconds) {
        Some(t) => t,
        None => {
            return None;
        },
    };
    Some(Nag { end_time, name: String::from_str(name), sound_file })
}

/// The reminders read from the text form: one candidate per line, malformed
/// lines skipped, relative durations taken from `now`.
/// The non-empty lines that parse to nothing and are skipped, in order: what
/// a reader of the text form should warn about.
pub open spec fn skipped_of(lines: Seq<Seq<char>>, now: u64) -> Seq<Seq<char>>
    decreases lines.len(),
{
    if lines.len() == 0 {
        seq![]
    } else {
        skipped_of(lines.drop_last(), now) + (if lines.last().len() > 0 && parse_nag_line(
            lines.last(),
            now,
        ) is None {
            seq![lines.last()]
        } else {
            seq![]
        })
    }
}

/// The reminders read from the text form, with the lines that were skipped:
/// one reminder candidate per line, relative durations taken from `now`.
/// Each skipped non-empty line comes back for the caller to log a warning
/// about; empty lines are passed over silently.
pub fn nags_from_text_report(text: &str, now: &Timestamp) -> (r: (Vec<Nag>, Vec<String>))
    ensures
        r.0.deep_view() == parse_nag_lines(split_on(text@, '\n'), now.secs),
        all_nags_valid(r.0.deep_view()),
        r.1.deep_view() == skipped_of(split_on(text@, '\n'), now.secs),
{
    let chars = str_to_chars(text);
    let lines = split_chars(&chars, '\n');
    let mut r: Vec<Nag> = Vec::new();
    let mut skipped: Vec<String> = Vec::new();
    let mut i: usize = 0;
    while i < lines.len()
        invariant
            i <= lines@.len(),
            lines.deep_view().len() == lines@.len(),
            lines.deep_view() == split_on(text@, '\n'),
            r.deep_view() == parse_nag_lines(lines.deep_view().take(i as int), now.secs),
            all_nags_valid(r.deep_view()),
            skipped.deep_view() == skipped_of(lines.deep_view().take(i as int), now.secs),
        decreases lines@.len() - i,
    {
        proof {
            assert(lines.deep_view()[i as int] == lines@[i as int]@);
            assert(lines.deep_view().take(i as int + 1).drop_last() =~= lines.deep_view().take(
                i as int,
            ));
        }
        match parse_nag_line_chars(&lines[i], now) {
            Some(n) => {
                r.push(n);
            },
            None => {
                if lines[i].len() > 0 {
                    skipped.push(chars_to_string(&lines[i]));
                }
            },
        }
        proof {
            assert(r.deep_view() =~~= parse_nag_lines(
                lines.deep_view().take(i as int + 1),
                now.secs,
            ));
            assert(skipped.deep_view() =~~= skipped_of(
                lines.deep_view().take(i as int + 1),
                now.secs,
            ));
        }
        i = i + 1;
    }
    proof {
        assert(lines.deep_view().take(lines@.len() as int) =~= lines.deep_view());
    }
    (r, skipped)
}

/// The reminders read from the text form, as `nags_from_text_report` reads
/// them, without the report of skipped lines.
pub fn nags_from_text(text: &str, now: &Timestamp) -> (r: Vec<Nag>)
    ensures
        r.deep_view() == parse_nag_lines(split_on(text@, '\n'), now.secs),
        all_nags_valid(r.deep_view()),
{
    let (nags, _) = nags_from_text_report(text, now);
    nags
}

// ---------------------------------------------------------------------------
// Round trip of the text form
// ---------------------------------------------------------------------------

/// Text that survives the line format unchanged: none of its delimiting
/// characters (quote, comma, newline).
pub open spec fn line_safe_text(s: Seq<char>) -> bool {
    forall|k: int| 0 <= k < s.len() ==> (#[trigger] s[k]) != '"' && s[k] != ',' && s[k] != '\n'
}

/// A reminder the line format represents faithfully: a valid end time, and
/// name and sound file free of the format's delimiters.
pub open spec fn line_safe(n: NagV) -> bool {
    &&& n.is_valid()
    &&& line_safe_text(n.name)
    &&& match n.sound_file {
        Some(sf) => line_safe_text(sf),
        None => true,
    }
}

proof fn lemma_quoted_avoids(x: Seq<char>, c: char)
    requires
        c != '"',
        forall|k: int| 0 <= k < x.len() ==> x[k] != c,
    ensures
        forall|k: int|
            0 <= k < (seq!['"'] + x + seq!['"']).len() ==> (#[trigger] (seq!['"'] + x
                + seq!['"'])[k]) != c,
{
    lemma_add_avoids(seq!['"'], x, c);
    lemma_add_avoids(seq!['"'] + x, seq!['"'], c);
}

/// A written line reads back as the reminder it was written for.
proof fn lemma_nag_line_round_trip(n: NagV, now: u64)
    requires
        line_safe(n),
    ensures
        parse_nag_line(nag_line_of(n), now) == Some(n),
{
    let line = nag_line_of(n);
    let rfc = rfc3339_of(n.end_time as int);
    lemma_rfc3339_no_delimiters(n.end_time as int);
    let q1 = seq!['"'] + rfc + seq!['"'];
    let q2 = seq!['"'] + n.name + seq!['"'];
    lemma_quoted_avoids(rfc, ',');
    lemma_quoted_avoids(n.name, ',');
    lemma_trim_quoted(rfc);
    lemma_trim_quoted(n.name);
    assert(rfc.len() == 25);
    assert(rfc.subrange(0, 25) =~= rfc);
    lemma_rfc3339_round_trip(n.end_time, rfc, 0);
    match n.sound_file {
        None => {
            assert(line =~= q1 + seq![','] + q2);
            lemma_split_first(q1, q2, ',');
            lemma_split_absent(q2, ',');
            let parts = split_on(line, ',');
            assert(parts =~= seq![q1, q2]);
            assert(parts[0] == q1 && parts[1] == q2);
            assert(trim_quotes(parts[0]) == rfc);
            assert(trim_quotes(parts[1]) == n.name);
            assert(parse_nag_line(line, now) == Some(n));
        },
        Some(sf) => {
            let q3 = seq!['"'] + sf + seq!['"'];
            lemma_quoted_avoids(sf, ',');
            lemma_trim_quoted(sf);
            assert(line =~= q1 + seq![','] + (q2 + seq![','] + q3));
            lemma_split_first(q1, q2 + seq![','] + q3, ',');
            lemma_split_first(q2, q3, ',');
            lemma_split_absent(q3, ',');
            let parts = split_on(line, ',');
            assert(parts =~= seq![q1, q2, q3]);
            assert(parts[0] == q1 && parts[1] == q2 && parts[2] == q3);
            assert(trim_quotes(parts[0]) == rfc);
            assert(trim_quotes(parts[1]) == n.name);
            assert(trim_quotes(parts[2]) == sf);
            assert(parts[2] != seq!['N', 'o', 'n', 'e']) by {
                if parts[2] == seq!['N', 'o', 'n', 'e'] {
                    assert(q3[0] == 'N');
                }
            }
            assert(parse_nag_line(line, now) == Some(n));
        },
    }
}

/// The written line holds no newline, so line splitting respects it.
proof fn lemma_nag_line_no_newline(n: NagV)
    requires
        line_safe(n),
    ensures
        forall|k: int| 0 <= k < nag_line_of(n).len() ==> (#[trigger] nag_line_of(n)[k]) != '\n',
{
    let rfc = rfc3339_of(n.end_time as int);
    lemma_rfc3339_no_delimiters(n.end_time as int);
    lemma_quoted_avoids(rfc, '\n');
    lemma_quoted_avoids(n.name, '\n');
    let q1 = seq!['"'] + rfc + seq!['"'];
    let q2 = seq!['"'] + n.name + seq!['"'];
    match n.sound_file {
        None => {
            lemma_add_avoids(q1, seq![','], '\n');
            lemma_add_avoids(q1 + seq![','], q2, '\n');
            assert(nag_line_of(n) =~= q1 + seq![','] + q2);
        },
        Some(sf) => {
            let q3 = seq!['"'] + sf + seq!['"'];
            lemma_quoted_avoids(sf, '\n');
            lemma_add_avoids(q1, seq![','], '\n');
            lemma_add_avoids(q1 + seq![','], q2, '\n');
            lemma_add_avoids(q1 + seq![','] + q2, seq![','], '\n');
            lemma_add_avoids(q1 + seq![','] + q2 + seq![','], q3, '\n');
            assert(nag_line_of(n) =~= q1 + seq![','] + q2 + seq![','] + q3);
        },
    }
}

/// The text of a list starts with its first reminder's line.
proof fn lemma_nags_text_front(s: Seq<NagV>)
    requires
        s.len() > 0,
    ensures
        nags_text_of(s) == nag_line_of(s[0]) + seq!['\n'] + nags_text_of(
            s.subrange(1, s.len() as int),
        ),
    decreases s.len(),
{
    if s.len() == 1 {
        assert(s.drop_last() =~= Seq::<NagV>::empty());
        assert(s.subrange(1, 1) =~= Seq::<NagV>::empty());
        assert(s.last() == s[0]);
        assert(nags_text_of(s) =~= nag_line_of(s[0]) + seq!['\n'] + nags_text_of(
            s.subrange(1, 1),
        ));
    } else {
        let d = s.drop_last();
        lemma_nags_text_front(d);
        assert(d[0] == s[0]);
        let tail = s.subrange(1, s.len() as int);
        assert(tail.drop_last() =~= d.subrange(1, d.len() as int));
        assert(tail.last() == s.last());
        assert(nags_text_of(s) =~= nag_line_of(s[0]) + seq!['\n'] + nags_text_of(tail));
    }
}

/// Parsing peels the first line off the front.
proof fn lemma_parse_lines_front(l: Seq<char>, ls: Seq<Seq<char>>, now: u64)
    ensures
        parse_nag_lines(seq![l] + ls, now) == (match parse_nag_line(l, now) {
            Some(n) => seq![n],
            None => seq![],
        }) + parse_nag_lines(ls, now),
    decreases ls.len(),
{
    reveal_with_fuel(parse_nag_lines, 3);
    let full = seq![l] + ls;
    if ls.len() == 0 {
        assert(full.drop_last() =~= Seq::<Seq<char>>::empty());
        assert(full.last() == l);
        assert(parse_nag_lines(full, now) =~= (match parse_nag_line(l, now) {
            Some(n) => seq![n],
            None => seq![],
        }) + parse_nag_lines(ls, now));
    } else {
        assert(full.drop_last() =~= seq![l] + ls.drop_last());
        lemma_parse_lines_front(l, ls.drop_last(), now);
        assert(full.last() == ls.last());
        assert(parse_nag_lines(full, now) =~= (match parse_nag_line(l, now) {
            Some(n) => seq![n],
            None => seq![],
        }) + parse_nag_lines(ls, now));
    }
}

/// Round trip of the durable-edit text form: a list of reminders whose
/// fields use none of the format's delimiters, written out and read back at
/// any instant, yields exactly the same list. (A name or sound file holding
/// a quote, comma or newline cannot survive this line format, so such
/// reminders are left out of the statement.)
pub proof fn lemma_nags_text_round_trip(s: Seq<NagV>, now: u64)
    requires
        forall|i: int| 0 <= i < s.len() ==> line_safe(#[trigger] s[i]),
    ensures
        parse_nag_lines(split_on(nags_text_of(s), '\n'), now) == s,
    decreases s.len(),
{
    reveal_with_fuel(parse_nag_lines, 3);
    if s.len() == 0 {
        let empty = Seq::<char>::empty();
        assert(nags_text_of(s) == empty);
        assert(split_on(empty, '\n') =~= seq![empty]);
        assert(split_on(empty, ',') =~= seq![empty]);
        assert(parse_nag_line(empty, now) is None);
        assert(parse_nag_lines(seq![empty], now) =~= s);
    } else {
        let tail = s.subrange(1, s.len() as int);
        lemma_nags_text_front(s);
        lemma_nag_line_no_newline(s[0]);
        lemma_split_first(nag_line_of(s[0]), nags_text_of(tail), '\n');
        lemma_parse_lines_front(nag_line_of(s[0]), split_on(nags_text_of(tail), '\n'), now);
        lemma_nag_line_round_trip(s[0], now);
        assert(forall|i: int| 0 <= i < tail.len() ==> line_safe(#[trigger] tail[i])) by {
            assert(forall|i: int| 0 <= i < tail.len() ==> tail[i] == s[i + 1]);
        }
        lemma_nags_text_round_trip(tail, now);
        assert(seq![s[0]] + tail =~= s);
    }
}

} // verus!
