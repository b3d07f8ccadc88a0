use vstd::prelude::*;
use crate::inifile::{
    IniEntry, IniFile, IniSection, SectionView, default_name, entry_map, ini_text, named_entries_text,
    section_map, sections_text,
};
use crate::parsing::{ErrorKind, ParseError, Warning, warning_at};
use crate::text::{decimal, is_white};

verus! {

/// The line on which the character at index `i` of `s` stands, counting from 1.
pub open spec fn line_of(s: Seq<char>, i: int) -> int
    decreases i,
{
    if i <= 0 {
        1
    } else if s[i - 1] == '\n' {
        line_of(s, i - 1) + 1
    } else {
        line_of(s, i - 1)
    }
}

/// The column at which the character at index `i` of `s` stands, counting from 1.
pub open spec fn col_of(s: Seq<char>, i: int) -> int
    decreases i,
{
    if i <= 0 {
        1
    } else if s[i - 1] == '\n' {
        1
    } else {
        col_of(s, i - 1) + 1
    }
}

pub(crate) proof fn lemma_position_bounds(s: Seq<char>, i: int)
    requires
        0 <= i,
    ensures
        1 <= line_of(s, i) <= i + 1,
        1 <= col_of(s, i) <= i + 1,
    decreases i,
{
    if i > 0 {
        lemma_position_bounds(s, i - 1);
    }
}

/// The first index at or after `i` whose character satisfies `stop`, or the length of `s`.
pub open spec fn scan_until(s: Seq<char>, i: int, stop: spec_fn(char) -> bool) -> int
    decreases s.len() - i,
{
    if 0 <= i < s.len() && !stop(s[i]) {
        scan_until(s, i + 1, stop)
    } else {
        i
    }
}

pub(crate) proof fn lemma_scan_until(s: Seq<char>, i: int, stop: spec_fn(char) -> bool)
    requires
        0 <= i <= s.len(),
    ensures
        i <= scan_until(s, i, stop) <= s.len(),
        scan_until(s, i, stop) < s.len() ==> stop(s[scan_until(s, i, stop)]),
        forall|k: int| i <= k < scan_until(s, i, stop) ==> !stop(#[trigger] s[k]),
    decreases s.len() - i,
{
    if i < s.len() && !stop(s[i]) {
        lemma_scan_until(s, i + 1, stop);
    }
}

/// The failure of kind `kind` at index `k` of `s`.
pub open spec fn error_at(s: Seq<char>, kind: ErrorKind, k: int) -> ParseError {
    ParseError { kind, line: line_of(s, k) as usize, col: col_of(s, k) as usize, pos: (k + 1) as usize }
}


/// End of a run of whitespace that starts at `i`.
pub open spec fn ws_end(s: Seq<char>, i: int) -> int {
    scan_until(s, i, |c: char| !is_white(c))
}

/// Index of the line break that ends the line holding `i`, or the length of `s`.
pub open spec fn line_end(s: Seq<char>, i: int) -> int {
    scan_until(s, i, |c: char| c == '\n')
}

/// End of a run of comment lines, each followed by whitespace, that starts at `i`.
/// A comment runs from `#` up to the line break, or to the end of the input.
pub open spec fn comments_end(s: Seq<char>, i: int) -> int
    decreases s.len() - i,
    via comments_end_decreases
{
    if 0 <= i < s.len() && s[i] == '#' {
        comments_end(s, ws_end(s, line_end(s, i)))
    } else {
        i
    }
}

#[via_fn]
pub(crate) proof fn comments_end_decreases(s: Seq<char>, i: int) {
    if 0 <= i < s.len() && s[i] == '#' {
        lemma_scan_until(s, i, |c: char| c == '\n');
        let l = line_end(s, i);
        lemma_scan_until(s, l, |c: char| !is_white(c));
    }
}

pub(crate) proof fn lemma_comments_end(s: Seq<char>, i: int)
    requires
        0 <= i <= s.len(),
    ensures
        i <= comments_end(s, i) <= s.len(),
        comments_end(s, i) < s.len() ==> s[comments_end(s, i)] != '#',
        i < comments_end(s, i) < s.len() ==> !is_white(s[comments_end(s, i)]),
    decreases s.len() - i,
{
    if i < s.len() && s[i] == '#' {
        lemma_scan_until(s, i, |c: char| c == '\n');
        let l = line_end(s, i);
        lemma_scan_until(s, l, |c: char| !is_white(c));
        let w = ws_end(s, l);
        lemma_comments_end(s, w);
        if comments_end(s, w) == w && w < s.len() {
            assert(!is_white(s[w]));
        }
    }
}

pub(crate) proof fn lemma_scan_until_at(s: Seq<char>, i: int, k: int, stop: spec_fn(char) -> bool)
    requires
        0 <= i <= k < s.len(),
        stop(s[k]),
        forall|m: int| i <= m < k ==> !stop(#[trigger] s[m]),
    ensures
        scan_until(s, i, stop) == k,
    decreases k - i,
{
    if i < k {
        lemma_scan_until_at(s, i + 1, k, stop);
    }
}

/// Where the grammar rules start after whitespace and comments are passed over.
pub open spec fn skip(s: Seq<char>, i: int) -> int {
    ws_end(s, comments_end(s, ws_end(s, i)))
}

pub(crate) proof fn lemma_skip(s: Seq<char>, i: int)
    requires
        0 <= i <= s.len(),
    ensures
        i <= skip(s, i) <= s.len(),
        skip(s, i) < s.len() ==> !is_white(s[skip(s, i)]) && s[skip(s, i)] != '#',
{
    lemma_scan_until(s, i, |c: char| !is_white(c));
    let a = ws_end(s, i);
    lemma_comments_end(s, a);
    let b = comments_end(s, a);
    lemma_scan_until(s, b, |c: char| !is_white(c));
    if b < s.len() {
        assert(!is_white(s[b]));
        assert(ws_end(s, b) == b);
    }
}

/// Where a key that starts at `i` stops: at `=`, at a line break, or at the end.
pub open spec fn key_stop(s: Seq<char>, i: int) -> int {
    scan_until(s, i, |c: char| c == '\n' || c == '=')
}

/// Where a value that starts at `i` stops: at a line break, a carriage return, a `#`, or the end.
pub open spec fn value_stop(s: Seq<char>, i: int) -> int {
    scan_until(s, i, |c: char| c == '\n' || c == '\r' || c == '#')
}

/// Where a section name that starts at `i` stops: at `]`, at a line break, or at the end.
pub open spec fn name_stop(s: Seq<char>, i: int) -> int {
    scan_until(s, i, |c: char| c == ']' || c == '\n')
}

/// Where the rest of a header line that starts at `i` stops being blank.
pub open spec fn trail_stop(s: Seq<char>, i: int) -> int {
    scan_until(s, i, |c: char| c == '\n' || !is_white(c))
}

/// The notes for the brackets among the characters at indices `i` up to `j`.
pub open spec fn bracket_notes(s: Seq<char>, i: int, j: int) -> Seq<Warning>
    decreases j - i,
{
    if j <= i {
        Seq::empty()
    } else if s[j - 1] == '[' || s[j - 1] == ']' {
        bracket_notes(s, i, j - 1).push(warning_at(s, j - 1))
    } else {
        bracket_notes(s, i, j - 1)
    }
}

/// The key that starts at `i`, and where scanning stops: the key runs up to `=`, a
/// line break first is an error, and the end of input gives no key.
pub open spec fn key_outcome(s: Seq<char>, i: int) -> Result<(Option<Seq<char>>, int), ParseError> {
    let j = key_stop(s, i);
    if j < s.len() && s[j] == '\n' {
        Err(error_at(s, ErrorKind::MissingEquals, j))
    } else if j < s.len() {
        Ok((Some(s.subrange(i, j)), j))
    } else {
        Ok((None, j))
    }
}

/// The value after the `=` at `i` (or at the end of input), and where scanning stops.
/// A value that the end of input cuts off gives nothing.
pub open spec fn value_outcome(s: Seq<char>, i: int) -> (Option<Seq<char>>, int) {
    let m = if i < s.len() { i + 1 } else { i };
    let k = value_stop(s, m);
    if k < s.len() {
        (Some(s.subrange(m, k)), k)
    } else {
        (None, k)
    }
}

/// The entry that starts at `i`, and where scanning stops.
pub open spec fn entry_outcome(s: Seq<char>, i: int) -> Result<
    (Option<(Seq<char>, Seq<char>)>, int),
    ParseError,
> {
    match key_outcome(s, i) {
        Err(e) => Err(e),
        Ok((key, j)) => {
            let (value, k) = value_outcome(s, j);
            match (key, value) {
                (Some(kk), Some(vv)) => Ok((Some((kk, vv)), k)),
                _ => Ok((None, k)),
            }
        },
    }
}

/// The name of the section header at `i`, if one starts there, and where scanning stops.
pub open spec fn section_outcome(s: Seq<char>, i: int) -> Result<(Option<Seq<char>>, int), ParseError> {
    if !(0 <= i < s.len() && s[i] == '[') {
        Ok((None, i))
    } else {
        let j = name_stop(s, i + 1);
        if j == s.len() {
            Err(error_at(s, ErrorKind::EndOfInputAfterSection, j))
        } else if s[j] == '\n' {
            Err(error_at(s, ErrorKind::UnterminatedSectionName, j))
        } else {
            let k = trail_stop(s, j + 1);
            if k == s.len() {
                Err(error_at(s, ErrorKind::EndOfInputAfterSection, k))
            } else if s[k] == '\n' || s[k] == '#' {
                Ok((Some(s.subrange(i + 1, j)), k))
            } else {
                Err(error_at(s, ErrorKind::ExtraneousCharactersAfterSection, k))
            }
        }
    }
}

/// A fresh section named `name`, without entries.
pub open spec fn fresh_section(name: Seq<char>) -> SectionView {
    SectionView { name, entries: Map::empty(), is_default: false }
}

/// The text of a diagnostic: the message and the position it refers to.
pub open spec fn error_text(msg: Seq<char>, line: nat, col: nat, pos: nat) -> Seq<char> {
    "Parse error: "@ + msg + " at line "@ + decimal(line) + ", column "@ + decimal(col) + " (char "@
        + decimal(pos) + ")"@
}


/// The section that holds the entries written before any header.
pub open spec fn default_section() -> SectionView {
    SectionView { name: default_name(), entries: Map::empty(), is_default: true }
}

/// Whether the section `sec` may be closed: it is the default section, it has entries,
/// or empty sections are allowed.
pub open spec fn may_close(sec: SectionView, allow_empty: bool) -> bool {
    sec.is_default || sec.has_entries() || allow_empty
}

/// The run of section headers at `p`: each header closes the active section, which
/// goes into `done` under its name, and opens a new one.
/// Yields where the run ends, the active section and the closed ones.
pub open spec fn headers(
    s: Seq<char>,
    p: int,
    active: SectionView,
    done: Map<Seq<char>, SectionView>,
    allow_empty: bool,
) -> Result<(int, SectionView, Map<Seq<char>, SectionView>), ParseError>
    decreases s.len() - p,
    via headers_decreases
{
    match section_outcome(s, p) {
        Err(e) => Err(e),
        Ok((None, _)) => Ok((p, active, done)),
        Ok((Some(name), k)) => {
            if !may_close(active, allow_empty) {
                Err(error_at(s, ErrorKind::EmptySection, k))
            } else {
                headers(s, skip(s, k), fresh_section(name), done.insert(active.name, active), allow_empty)
            }
        },
    }
}

pub(crate) proof fn lemma_section_progress(s: Seq<char>, p: int)
    requires
        0 <= p <= s.len(),
    ensures
        section_outcome(s, p) matches Ok((None, k)) ==> k == p && !(p < s.len() && s[p] == '['),
        section_outcome(s, p) matches Ok((Some(_), k)) ==> p < k <= s.len(),
{
    if p < s.len() && s[p] == '[' {
        lemma_scan_until(s, p + 1, |c: char| c == ']' || c == '\n');
        let j = name_stop(s, p + 1);
        if j < s.len() {
            lemma_scan_until(s, j + 1, |c: char| c == '\n' || !is_white(c));
        }
    }
}

#[via_fn]
pub(crate) proof fn headers_decreases(
    s: Seq<char>,
    p: int,
    active: SectionView,
    done: Map<Seq<char>, SectionView>,
    allow_empty: bool,
) {
    if 0 <= p <= s.len() {
        lemma_section_progress(s, p);
        if let Ok((Some(_), k)) = section_outcome(s, p) {
            lemma_skip(s, k);
        }
    } else {
        assert(section_outcome(s, p) == Ok::<(Option<Seq<char>>, int), ParseError>((None, p)));
    }
}

pub(crate) proof fn lemma_headers_progress(
    s: Seq<char>,
    p: int,
    active: SectionView,
    done: Map<Seq<char>, SectionView>,
    allow_empty: bool,
)
    requires
        0 <= p <= s.len(),
    ensures
        headers(s, p, active, done, allow_empty) matches Ok((q, _, _)) ==> p <= q <= s.len() && (q
            == p ==> !(p < s.len() && s[p] == '[')),
    decreases s.len() - p,
{
    lemma_section_progress(s, p);
    if let Ok((Some(name), k)) = section_outcome(s, p) {
        lemma_skip(s, k);
        if may_close(active, allow_empty) {
            lemma_headers_progress(s, skip(s, k), fresh_section(name), done.insert(active.name, active), allow_empty);
        }
    }
}

pub(crate) proof fn lemma_entry_progress(s: Seq<char>, p: int)
    requires
        0 <= p <= s.len(),
    ensures
        entry_outcome(s, p) matches Ok((_, q)) ==> p <= q <= s.len() && (p < s.len() ==> p < q),
{
    lemma_scan_until(s, p, |c: char| c == '\n' || c == '=');
    let j = key_stop(s, p);
    let m = if j < s.len() { j + 1 } else { j };
    lemma_scan_until(s, m, |c: char| c == '\n' || c == '\r' || c == '#');
}

/// The section that an entry goes into, with the entry added if there is one.
pub open spec fn with_optional_entry(sec: SectionView, entry: Option<(Seq<char>, Seq<char>)>) -> SectionView {
    match entry {
        Some((k, v)) => sec.with_entry(k, v),
        None => sec,
    }
}

/// The outcome of closing the last section at the end of the input.
pub open spec fn finish(
    s: Seq<char>,
    active: SectionView,
    done: Map<Seq<char>, SectionView>,
    notes: Seq<Warning>,
    allow_empty: bool,
) -> Result<(Map<Seq<char>, SectionView>, Seq<Warning>), ParseError> {
    if !may_close(active, allow_empty) {
        Err(error_at(s, ErrorKind::EmptySection, s.len() as int))
    } else {
        Ok((done.insert(active.name, active), notes))
    }
}

/// The parse from index `i` on, with `active` the open section, `done` the closed
/// ones and `notes` the advisory notes so far.  Each step passes over blank lines
/// and comments, takes a run of headers, then one entry.
pub open spec fn parse_from(
    s: Seq<char>,
    i: int,
    active: SectionView,
    done: Map<Seq<char>, SectionView>,
    notes: Seq<Warning>,
    allow_empty: bool,
) -> Result<(Map<Seq<char>, SectionView>, Seq<Warning>), ParseError>
    decreases s.len() - i,
    via parse_from_decreases
{
    if !(0 <= i < s.len()) {
        finish(s, active, done, notes, allow_empty)
    } else {
        match headers(s, skip(s, i), active, done, allow_empty) {
            Err(e) => Err(e),
            Ok((p, act, dn)) => match entry_outcome(s, p) {
                Err(e) => Err(e),
                Ok((entry, q)) => parse_from(
                    s,
                    q,
                    with_optional_entry(act, entry),
                    dn,
                    notes + bracket_notes(s, p, key_stop(s, p)),
                    allow_empty,
                ),
            },
        }
    }
}

pub(crate) proof fn lemma_step_progress(
    s: Seq<char>,
    i: int,
    active: SectionView,
    done: Map<Seq<char>, SectionView>,
    allow_empty: bool,
)
    requires
        0 <= i < s.len(),
    ensures
        headers(s, skip(s, i), active, done, allow_empty) matches Ok((p, _, _)) ==> (entry_outcome(s, p) matches Ok((_, q)) ==> i < q <= s.len()),
{
    lemma_skip(s, i);
    let a = skip(s, i);
    lemma_headers_progress(s, a, active, done, allow_empty);
    if let Ok((p, _, _)) = headers(s, a, active, done, allow_empty) {
        lemma_entry_progress(s, p);
        if p == i {
            lemma_scan_until(s, p, |c: char| c == '\n' || c == '=');
        }
    }
}

#[via_fn]
pub(crate) proof fn parse_from_decreases(
    s: Seq<char>,
    i: int,
    active: SectionView,
    done: Map<Seq<char>, SectionView>,
    notes: Seq<Warning>,
    allow_empty: bool,
) {
    if 0 <= i < s.len() {
        lemma_step_progress(s, i, active, done, allow_empty);
    }
}

/// The parse of the text `s`.
pub open spec fn parse_outcome(s: Seq<char>, allow_empty: bool) -> Result<
    (Map<Seq<char>, SectionView>, Seq<Warning>),
    ParseError,
> {
    parse_from(s, 0, default_section(), Map::empty(), Seq::empty(), allow_empty)
}

/// Every section that may not be empty has at least one entry.
pub open spec fn sections_filled(m: Map<Seq<char>, SectionView>, allow_empty: bool) -> bool {
    forall|k: Seq<char>| #[trigger] m.contains_key(k) ==> may_close(m[k], allow_empty)
}


pub(crate) proof fn lemma_headers_filled(
    s: Seq<char>,
    p: int,
    active: SectionView,
    done: Map<Seq<char>, SectionView>,
    allow_empty: bool,
)
    requires
        0 <= p <= s.len(),
        sections_filled(done, allow_empty),
    ensures
        headers(s, p, active, done, allow_empty) matches Ok((_, _, dn)) ==> sections_filled(dn, allow_empty),
    decreases s.len() - p,
{
    lemma_section_progress(s, p);
    if let Ok((Some(name), k)) = section_outcome(s, p) {
        lemma_skip(s, k);
        if may_close(active, allow_empty) {
            let dn = done.insert(active.name, active);
            assert(sections_filled(dn, allow_empty));
            lemma_headers_filled(s, skip(s, k), fresh_section(name), dn, allow_empty);
        }
    }
}

pub(crate) proof fn lemma_parse_from_filled(
    s: Seq<char>,
    i: int,
    active: SectionView,
    done: Map<Seq<char>, SectionView>,
    notes: Seq<Warning>,
    allow_empty: bool,
)
    requires
        0 <= i <= s.len(),
        sections_filled(done, allow_empty),
    ensures
        parse_from(s, i, active, done, notes, allow_empty) matches Ok((m, _)) ==> sections_filled(m, allow_empty),
    decreases s.len() - i,
{
    if i < s.len() {
        lemma_step_progress(s, i, active, done, allow_empty);
        lemma_skip(s, i);
        lemma_headers_filled(s, skip(s, i), active, done, allow_empty);
        if let Ok((p, act, dn)) = headers(s, skip(s, i), active, done, allow_empty) {
            if let Ok((entry, q)) = entry_outcome(s, p) {
                lemma_parse_from_filled(
                    s,
                    q,
                    with_optional_entry(act, entry),
                    dn,
                    notes + bracket_notes(s, p, key_stop(s, p)),
                    allow_empty,
                );
            }
        }
    } else {
        if let Ok((m, _)) = finish(s, active, done, notes, allow_empty) {
            assert(sections_filled(m, allow_empty));
        }
    }
}

/// In every document that a parse yields, each section other than the default one
/// has at least one entry, unless empty sections were allowed for that parse.
pub proof fn lemma_parsed_sections_filled(s: Seq<char>, allow_empty: bool)
    ensures
        parse_outcome(s, allow_empty) matches Ok((m, _)) ==> forall|k: Seq<char>| #[trigger] m.contains_key(k)
            ==> m[k].is_default || m[k].has_entries() || allow_empty,
{
    lemma_parse_from_filled(s, 0, default_section(), Map::empty(), Seq::empty(), allow_empty);
}

/// A comment line, from `#` at index `i` up to and with its line break at index `j - 1`,
/// contributes nothing: a step of the parse that starts on it, or on whitespace just
/// before it (from index `p` on), comes out as one that starts after it, with no entry,
/// no section and no note more.
pub proof fn lemma_comment_line_elided(
    s: Seq<char>,
    p: int,
    i: int,
    j: int,
    active: SectionView,
    done: Map<Seq<char>, SectionView>,
    notes: Seq<Warning>,
    allow_empty: bool,
)
    requires
        0 <= p <= i < j <= s.len(),
        forall|k: int| p <= k < i ==> is_white(#[trigger] s[k]),
        s[i] == '#',
        s[j - 1] == '\n',
        forall|k: int| i <= k < j - 1 ==> s[k] != '\n',
    ensures
        parse_from(s, p, active, done, notes, allow_empty) == parse_from(s, j, active, done, notes, allow_empty),
{
    lemma_scan_until_at(s, p, i, |c: char| !is_white(c));
    lemma_scan_until_at(s, i, j - 1, |c: char| c == '\n');
    assert(is_white(s[j - 1]));
    assert(ws_end(s, j - 1) == ws_end(s, j));
    assert(skip(s, p) == skip(s, j));
    if j == s.len() {
        lemma_skip(s, p);
        assert(notes + bracket_notes(s, s.len() as int, s.len() as int) =~= notes);
    }
}

proof fn lemma_scan_shift(c: Seq<char>, t: Seq<char>, i: int, stop: spec_fn(char) -> bool)
    requires
        0 <= i <= t.len(),
    ensures
        scan_until(c + t, i + c.len(), stop) == scan_until(t, i, stop) + c.len(),
    decreases t.len() - i,
{
    if i < t.len() {
        assert((c + t)[i + c.len()] == t[i]);
        if !stop(t[i]) {
            lemma_scan_shift(c, t, i + 1, stop);
        }
    }
}

proof fn lemma_comments_shift(c: Seq<char>, t: Seq<char>, i: int)
    requires
        0 <= i <= t.len(),
    ensures
        comments_end(c + t, i + c.len()) == comments_end(t, i) + c.len(),
    decreases t.len() - i,
{
    let s = c + t;
    if i < t.len() {
        assert(s[i + c.len()] == t[i]);
        if t[i] == '#' {
            lemma_scan_shift(c, t, i, |ch: char| ch == '\n');
            lemma_scan_until(t, i, |ch: char| ch == '\n');
            let l = line_end(t, i);
            lemma_scan_shift(c, t, l, |ch: char| !is_white(ch));
            lemma_scan_until(t, l, |ch: char| !is_white(ch));
            lemma_comments_shift(c, t, ws_end(t, l));
        }
    }
}

proof fn lemma_skip_shift(c: Seq<char>, t: Seq<char>, i: int)
    requires
        0 <= i <= t.len(),
    ensures
        skip(c + t, i + c.len()) == skip(t, i) + c.len(),
{
    lemma_scan_shift(c, t, i, |ch: char| !is_white(ch));
    lemma_scan_until(t, i, |ch: char| !is_white(ch));
    let a = ws_end(t, i);
    lemma_comments_shift(c, t, a);
    lemma_comments_end(t, a);
    lemma_scan_shift(c, t, comments_end(t, a), |ch: char| !is_white(ch));
}

/// `a` is the outcome `b` moved `d` characters on: both fail, or both give the same
/// value and stop at places `d` apart.
pub open spec fn shifted<T>(a: Result<(T, int), ParseError>, b: Result<(T, int), ParseError>, d: int) -> bool {
    match (a, b) {
        (Err(_), Err(_)) => true,
        (Ok((x, p)), Ok((y, q))) => x == y && p == q + d,
        _ => false,
    }
}

proof fn lemma_entry_shift(c: Seq<char>, t: Seq<char>, i: int)
    requires
        0 <= i <= t.len(),
    ensures
        shifted(entry_outcome(c + t, i + c.len()), entry_outcome(t, i), c.len() as int),
{
    let s = c + t;
    let d = c.len() as int;
    lemma_scan_shift(c, t, i, |ch: char| ch == '\n' || ch == '=');
    lemma_scan_until(t, i, |ch: char| ch == '\n' || ch == '=');
    let j = key_stop(t, i);
    assert(s.subrange(i + d, j + d) =~= t.subrange(i, j));
    if j < t.len() {
        assert(s[j + d] == t[j]);
    }
    let m = if j < t.len() { j + 1 } else { j };
    lemma_scan_shift(c, t, m, |ch: char| ch == '\n' || ch == '\r' || ch == '#');
    lemma_scan_until(t, m, |ch: char| ch == '\n' || ch == '\r' || ch == '#');
    let k = value_stop(t, m);
    assert(s.subrange(m + d, k + d) =~= t.subrange(m, k));
}

proof fn lemma_section_shift(c: Seq<char>, t: Seq<char>, p: int)
    requires
        0 <= p <= t.len(),
    ensures
        shifted(section_outcome(c + t, p + c.len()), section_outcome(t, p), c.len() as int),
{
    let s = c + t;
    let d = c.len() as int;
    if p < t.len() {
        assert(s[p + d] == t[p]);
        if t[p] == '[' {
            lemma_scan_shift(c, t, p + 1, |ch: char| ch == ']' || ch == '\n');
            lemma_scan_until(t, p + 1, |ch: char| ch == ']' || ch == '\n');
            let j = name_stop(t, p + 1);
            if j < t.len() {
                assert(s[j + d] == t[j]);
                lemma_scan_shift(c, t, j + 1, |ch: char| ch == '\n' || !is_white(ch));
                lemma_scan_until(t, j + 1, |ch: char| ch == '\n' || !is_white(ch));
                let k = trail_stop(t, j + 1);
                if k < t.len() {
                    assert(s[k + d] == t[k]);
                }
                assert(s.subrange(p + 1 + d, j + d) =~= t.subrange(p + 1, j));
            }
        }
    }
}

proof fn lemma_headers_shift(
    c: Seq<char>,
    t: Seq<char>,
    p: int,
    active: SectionView,
    done: Map<Seq<char>, SectionView>,
    allow_empty: bool,
)
    requires
        0 <= p <= t.len(),
    ensures
        match (headers(c + t, p + c.len(), active, done, allow_empty), headers(t, p, active, done, allow_empty)) {
            (Err(_), Err(_)) => true,
            (Ok((q1, a1, d1)), Ok((q2, a2, d2))) => q1 == q2 + c.len() && a1 == a2 && d1 == d2,
            _ => false,
        },
    decreases t.len() - p,
{
    lemma_section_shift(c, t, p);
    lemma_section_progress(t, p);
    if let Ok((Some(name), k)) = section_outcome(t, p) {
        lemma_skip(t, k);
        lemma_skip_shift(c, t, k);
        if may_close(active, allow_empty) {
            lemma_headers_shift(c, t, skip(t, k), fresh_section(name), done.insert(active.name, active), allow_empty);
        }
    }
}

proof fn lemma_parse_from_shift(
    c: Seq<char>,
    t: Seq<char>,
    i: int,
    active: SectionView,
    done: Map<Seq<char>, SectionView>,
    n1: Seq<Warning>,
    n2: Seq<Warning>,
    allow_empty: bool,
)
    requires
        0 <= i <= t.len(),
    ensures
        match (parse_from(c + t, i + c.len(), active, done, n1, allow_empty), parse_from(t, i, active, done, n2, allow_empty)) {
            (Err(_), Err(_)) => true,
            (Ok((m1, _)), Ok((m2, _))) => m1 == m2,
            _ => false,
        },
    decreases t.len() - i,
{
    let s = c + t;
    let d = c.len() as int;
    if i < t.len() {
        lemma_step_progress(t, i, active, done, allow_empty);
        lemma_skip(t, i);
        lemma_skip_shift(c, t, i);
        lemma_headers_shift(c, t, skip(t, i), active, done, allow_empty);
        lemma_headers_progress(t, skip(t, i), active, done, allow_empty);
        if let Ok((p, act, dn)) = headers(t, skip(t, i), active, done, allow_empty) {
            lemma_entry_shift(c, t, p);
            if let Ok((entry, q)) = entry_outcome(t, p) {
                lemma_parse_from_shift(
                    c,
                    t,
                    q,
                    with_optional_entry(act, entry),
                    dn,
                    n1 + bracket_notes(s, p + d, key_stop(s, p + d)),
                    n2 + bracket_notes(t, p, key_stop(t, p)),
                    allow_empty,
                );
            }
        }
    }
}

/// A comment line at the top of a text contributes nothing: the text parses to the
/// same document with the line as without it, and fails with it exactly when it fails
/// without it.
pub proof fn lemma_leading_comment_elided(c: Seq<char>, t: Seq<char>, allow_empty: bool)
    requires
        c.len() > 0,
        c[0] == '#',
        c.last() == '\n',
        forall|k: int| 0 <= k < c.len() - 1 ==> c[k] != '\n',
    ensures
        parse_outcome(c + t, allow_empty) is Ok <==> parse_outcome(t, allow_empty) is Ok,
        parse_outcome(c + t, allow_empty) matches Ok((m1, _)) ==> parse_outcome(t, allow_empty) matches Ok((m2, _))
            && m1 == m2,
{
    let s = c + t;
    let d = c.len() as int;
    assert forall|k: int| 0 <= k < d - 1 implies s[k] != '\n' by {
        assert(s[k] == c[k]);
    }
    assert(s[0] == c[0]);
    assert(s[d - 1] == c[d - 1]);
    lemma_comment_line_elided(s, 0, 0, d, default_section(), Map::empty(), Seq::empty(), allow_empty);
    lemma_parse_from_shift(c, t, 0, default_section(), Map::empty(), Seq::empty(), Seq::empty(), allow_empty);
}


pub(crate) proof fn lemma_blank_sections_text(ss: Seq<IniSection>, include_empty: bool)
    requires
        forall|i: int| 0 <= i < ss.len() ==> (#[trigger] ss[i]).is_default && ss[i].entries@.len() == 0,
    ensures
        named_entries_text(ss, default_name()) == Seq::<char>::empty(),
        sections_text(ss, include_empty) == Seq::<char>::empty(),
    decreases ss.len(),
{
    if ss.len() > 0 {
        lemma_blank_sections_text(ss.drop_last(), include_empty);
        assert(ss.last() == ss[ss.len() - 1]);
        assert(ss.last().entries@ =~= Seq::<IniEntry>::empty());
    }
}

/// Writing a document as text and parsing the text again gives the document back,
/// for a document that holds nothing but the empty default section.  (Any entry is
/// written as `key = value`, which parses back with the key `"key "` and the value
/// `" value"`.)
pub proof fn lemma_round_trip_without_entries(f: IniFile, include_empty: bool, allow_empty: bool)
    requires
        f.wf(),
        f.sections@.len() > 0,
        forall|i: int| 0 <= i < f.sections@.len() ==> (#[trigger] f.sections@[i]).is_default
            && f.sections@[i].entries@.len() == 0 && f.sections@[i].name@ == default_name(),
    ensures
        parse_outcome(ini_text(f.sections@, include_empty), allow_empty) matches Ok((m, _)) && m == f@,
{
    let ss = f.sections@;
    lemma_blank_sections_text(ss, include_empty);
    assert(ini_text(ss, include_empty) =~= Seq::<char>::empty());
    if ss.len() > 1 {
        assert(ss[0].name@ == ss[1].name@);
    }
    assert(ss.drop_last() =~= Seq::<IniSection>::empty());
    assert(ss.len() == 1);
    assert(ss[0].entries@ =~= Seq::<IniEntry>::empty());
    assert(entry_map(ss[0].entries@) == Map::<Seq<char>, Seq<char>>::empty());
    assert(ss[0]@ == default_section());
    assert(ss.last() == ss[0]);
    assert(section_map(ss.drop_last()) == Map::<Seq<char>, SectionView>::empty());
    assert(section_map(ss) =~= Map::<Seq<char>, SectionView>::empty().insert(default_name(), default_section()));
}

} // verus!
