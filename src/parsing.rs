use vstd::prelude::*;
use vstd::string::StringExecFns;
use crate::inifile::{IniEntry, IniFile, IniSection, SectionView, lemma_entries_present};
use crate::text::{chars_of, decimal_string, is_white, is_whitespace, string_of};

pub mod grammar;
pub mod parser_util;

use self::grammar::{
    bracket_notes, col_of, comments_end, default_section, entry_outcome, error_at, error_text,
    fresh_section, headers, key_outcome, key_stop, lemma_entry_progress,
    lemma_parse_from_filled, lemma_position_bounds, lemma_scan_until, lemma_section_progress,
    lemma_skip, lemma_step_progress, line_end, line_of, name_stop, parse_from, parse_outcome,
    section_outcome, sections_filled, skip, trail_stop, value_outcome, value_stop, ws_end,
};

verus! {

/// End of input, or a character.
#[derive(Debug, Clone, Copy, PartialEq, Eq, Structural)]
pub enum CharResult {
    Char(char),
    Eof,
}

/// An advisory note: a bracket inside a key, where it has no meaning.
#[derive(Debug, Clone, Copy, PartialEq, Eq, Structural)]
pub struct Warning {
    pub ch: char,
    pub line: usize,
    pub col: usize,
    pub pos: usize,
}

/// The note for the character at index `k` of `s`.
pub open spec fn warning_at(s: Seq<char>, k: int) -> Warning {
    Warning { ch: s[k], line: line_of(s, k) as usize, col: col_of(s, k) as usize, pos: (k + 1) as usize }
}

/// The kinds of failure of a parse.
#[derive(Debug, Clone, Copy, PartialEq, Eq, Structural)]
pub enum ErrorKind {
    MissingEquals,
    UnterminatedSectionName,
    ExtraneousCharactersAfterSection,
    EmptySection,
    /// Input ended on the line of a section header.
    EndOfInputAfterSection,
    FileReadFailure,
    FileWriteFailure,
}

/// A failure of a parse, with the position at which it was found.
#[derive(Debug, Clone, Copy, PartialEq, Eq, Structural)]
pub struct ParseError {
    pub kind: ErrorKind,
    pub line: usize,
    pub col: usize,
    pub pos: usize,
}

/// The message for a failure of kind `kind`.
pub open spec fn kind_text(kind: ErrorKind) -> Seq<char> {
    match kind {
        ErrorKind::MissingEquals => "Missing equals sign in file"@,
        ErrorKind::UnterminatedSectionName => "Missing closing ']' in section name"@,
        ErrorKind::ExtraneousCharactersAfterSection => "Extraneous characters after section name"@,
        ErrorKind::EmptySection => "Empty section"@,
        ErrorKind::EndOfInputAfterSection => "Input ends on the line of a section header"@,
        ErrorKind::FileReadFailure => "Could not read file"@,
        ErrorKind::FileWriteFailure => "Could not write file"@,
    }
}

impl ErrorKind {
    pub fn message(&self) -> (r: &'static str)
        ensures
            r@ == kind_text(*self),
    {
        match self {
            ErrorKind::MissingEquals => "Missing equals sign in file",
            ErrorKind::UnterminatedSectionName => "Missing closing ']' in section name",
            ErrorKind::ExtraneousCharactersAfterSection => "Extraneous characters after section name",
            ErrorKind::EmptySection => "Empty section",
            ErrorKind::EndOfInputAfterSection => "Input ends on the line of a section header",
            ErrorKind::FileReadFailure => "Could not read file",
            ErrorKind::FileWriteFailure => "Could not write file",
        }
    }
}

impl ParseError {
    /// The diagnostic text: the message of the kind and the position.
    pub fn message(&self) -> (r: String)
        ensures
            r@ == error_text(kind_text(self.kind), self.line as nat, self.col as nat, self.pos as nat),
    {
        format_error(self.kind.message(), self.line, self.col, self.pos)
    }
}

/// The diagnostic text for `msg` at the given position.
pub fn format_error(msg: &str, line: usize, col: usize, pos: usize) -> (r: String)
    ensures
        r@ == error_text(msg@, line as nat, col as nat, pos as nat),
{
    let mut r = String::from_str("Parse error: ");
    r.append(msg);
    r.append(" at line ");
    r.append(decimal_string(line).as_str());
    r.append(", column ");
    r.append(decimal_string(col).as_str());
    r.append(" (char ");
    r.append(decimal_string(pos).as_str());
    r.append(")");
    proof {
        reveal_strlit("Parse error: ");
        reveal_strlit(" at line ");
        reveal_strlit(", column ");
        reveal_strlit(" (char ");
        reveal_strlit(")");
    }
    r
}

/// A cursor over the characters of a text, with its position and a mark.
pub struct ParsableString {
    chars: Vec<char>,
    current_index: usize,
    mark_index: usize,
    pos: usize,
    line: usize,
    col: usize,
    warnings: Vec<Warning>,
}

impl ParsableString {
    /// The characters scanned.
    pub closed spec fn text(&self) -> Seq<char> {
        self.chars@
    }

    /// The index of the next character to be read.
    pub closed spec fn index(&self) -> int {
        self.current_index as int
    }

    /// The index where the capture region starts.
    pub closed spec fn marked(&self) -> int {
        self.mark_index as int
    }

    /// The advisory notes issued so far.
    pub closed spec fn notes(&self) -> Seq<Warning> {
        self.warnings@
    }

    pub closed spec fn wf(&self) -> bool {
        &&& self.chars@.len() < usize::MAX
        &&& self.mark_index <= self.current_index <= self.chars@.len()
        &&& self.pos == self.current_index + 1
        &&& self.line == line_of(self.chars@, self.current_index as int)
        &&& self.col == col_of(self.chars@, self.current_index as int)
    }

    /// The cursor lies within the text, and the mark at or before the cursor.
    pub proof fn lemma_positions(&self)
        requires
            self.wf(),
        ensures
            0 <= self.marked() <= self.index() <= self.text().len(),
            self.text().len() < usize::MAX,
    {
    }

    pub fn new(s: &str) -> (r: ParsableString)
        requires
            s@.len() < usize::MAX,
        ensures
            r.wf(),
            r.text() == s@,
            r.index() == 0,
            r.marked() == 0,
            r.notes() == Seq::<Warning>::empty(),
    {
        ParsableString {
            chars: chars_of(s),
            current_index: 0,
            mark_index: 0,
            pos: 1,
            line: 1,
            col: 1,
            warnings: Vec::new(),
        }
    }

    pub fn done(&self) -> (r: bool)
        requires
            self.wf(),
        ensures
            r == (self.index() >= self.text().len()),
    {
        self.current_index >= self.chars.len()
    }

    pub fn mark(&mut self)
        requires
            old(self).wf(),
        ensures
            final(self).wf(),
            final(self).text() == old(self).text(),
            final(self).index() == old(self).index(),
            final(self).notes() == old(self).notes(),
            final(self).marked() == old(self).index(),
    {
        self.mark_index = self.current_index;
    }

    pub fn is_marked(&self) -> (r: bool)
        ensures
            r == (self.marked() != self.index()),
    {
        self.mark_index != self.current_index
    }

    pub fn unmark(&mut self)
        requires
            old(self).wf(),
        ensures
            final(self).wf(),
            final(self).text() == old(self).text(),
            final(self).index() == old(self).index(),
            final(self).notes() == old(self).notes(),
            final(self).marked() == old(self).index(),
    {
        self.mark_index = self.current_index;
    }

    /// The characters from the mark up to the cursor.
    pub fn get_marked_string(&self) -> (r: String)
        requires
            self.wf(),
        ensures
            r@ == self.text().subrange(self.marked(), self.index()),
    {
        let r = string_of(vstd::slice::slice_subrange(self.chars.as_slice(), self.mark_index, self.current_index));
        r
    }

    pub fn peek(&self) -> (r: CharResult)
        requires
            self.wf(),
        ensures
            r == (if self.index() < self.text().len() {
                CharResult::Char(self.text()[self.index()])
            } else {
                CharResult::Eof
            }),
    {
        if self.current_index >= self.chars.len() {
            CharResult::Eof
        } else {
            CharResult::Char(self.chars[self.current_index])
        }
    }

    /// Consumes the next character, if any, keeping line and column up to date.
    pub fn advance(&mut self) -> (r: CharResult)
        requires
            old(self).wf(),
        ensures
            final(self).wf(),
            final(self).text() == old(self).text(),
            final(self).marked() == old(self).marked(),
            final(self).notes() == old(self).notes(),
            old(self).index() < old(self).text().len() ==> final(self).index() == old(self).index() + 1
                && r == CharResult::Char(old(self).text()[old(self).index()]),
            old(self).index() >= old(self).text().len() ==> final(self).index() == old(self).index()
                && r == CharResult::Eof,
    {
        if self.current_index < self.chars.len() {
            let c = self.chars[self.current_index];
            proof {
                lemma_position_bounds(self.chars@, self.current_index as int);
            }
            self.current_index += 1;
            self.pos += 1;
            self.col += 1;
            if c == '\n' {
                self.line += 1;
                self.col = 1;
            }
            CharResult::Char(c)
        } else {
            CharResult::Eof
        }
    }

    /// The diagnostic text for `msg` at the cursor.
    pub fn error(&self, msg: &str) -> (r: String)
        requires
            self.wf(),
        ensures
            r@ == error_text(
                msg@,
                line_of(self.text(), self.index()) as nat,
                col_of(self.text(), self.index()) as nat,
                (self.index() + 1) as nat,
            ),
    {
        format_error(msg, self.line, self.col, self.pos)
    }

    /// The failure of kind `kind` at the cursor.
    fn fail(&self, kind: ErrorKind) -> (r: ParseError)
        requires
            self.wf(),
        ensures
            r == error_at(self.text(), kind, self.index()),
    {
        ParseError { kind, line: self.line, col: self.col, pos: self.pos }
    }

    fn eat_whitespace(&mut self)
        requires
            old(self).wf(),
        ensures
            final(self).wf(),
            final(self).text() == old(self).text(),
            final(self).notes() == old(self).notes(),
            final(self).marked() == old(self).marked(),
            final(self).index() == ws_end(old(self).text(), old(self).index()),
    {
        let ghost s = self.text();
        let ghost i0 = self.index();
        loop
            invariant
                self.wf(),
                self.text() == s,
                self.notes() == old(self).notes(),
                self.marked() == old(self).marked(),
                i0 <= self.index(),
                ws_end(s, self.index()) == ws_end(s, i0),
            ensures
                self.index() == ws_end(s, i0),
            decreases s.len() - self.index(),
        {
            match self.peek() {
                CharResult::Char(c) => {
                    if is_whitespace(c) {
                        self.advance();
                    } else {
                        break;
                    }
                },
                CharResult::Eof => break,
            }
        }
    }

    /// Records a note for the bracket `c` at the cursor.
    fn warning(&mut self, c: char)
        requires
            old(self).wf(),
            old(self).index() < old(self).text().len(),
            old(self).text()[old(self).index()] == c,
        ensures
            final(self).wf(),
            final(self).text() == old(self).text(),
            final(self).index() == old(self).index(),
            final(self).marked() == old(self).marked(),
            final(self).notes() == old(self).notes().push(warning_at(old(self).text(), old(self).index())),
    {
        self.warnings.push(Warning { ch: c, line: self.line, col: self.col, pos: self.pos });
    }

    /// Scans a key up to its `=`, noting brackets on the way.
    fn parse_key(&mut self) -> (r: Result<Option<String>, ParseError>)
        requires
            old(self).wf(),
        ensures
            final(self).wf(),
            final(self).text() == old(self).text(),
            final(self).index() == key_stop(old(self).text(), old(self).index()),
            final(self).notes() == old(self).notes() + bracket_notes(
                old(self).text(),
                old(self).index(),
                key_stop(old(self).text(), old(self).index()),
            ),
            match key_outcome(old(self).text(), old(self).index()) {
                Err(e) => r == Err::<Option<String>, ParseError>(e),
                Ok((None, _)) => r matches Ok(None),
                Ok((Some(k), _)) => r matches Ok(Some(key)) && key@ == k,
            },
    {
        let ghost s = self.text();
        let ghost i0 = self.index();
        let ghost n0 = self.notes();
        self.mark();
        loop
            invariant
                self.wf(),
                self.text() == s,
                self.marked() == i0,
                s == old(self).text(),
                i0 == old(self).index(),
                n0 == old(self).notes(),
                i0 <= self.index(),
                key_stop(s, self.index()) == key_stop(s, i0),
                self.notes() == n0 + bracket_notes(s, i0, self.index()),
            ensures
                self.index() == s.len(),
                self.index() == key_stop(s, i0),
                self.notes() == n0 + bracket_notes(s, i0, self.index()),
            decreases s.len() - self.index(),
        {
            match self.peek() {
                CharResult::Char(c) => {
                    if c == '\n' {
                        return Err(self.fail(ErrorKind::MissingEquals));
                    }
                    if c == '[' {
                        self.warning('[');
                    }
                    if c == ']' {
                        self.warning(']');
                    }
                    if c == '=' {
                        return Ok(Some(self.get_marked_string()));
                    }
                    self.advance();
                    assert(self.notes() =~= n0 + bracket_notes(s, i0, self.index()));
                },
                CharResult::Eof => break,
            }
        }
        Ok(None)
    }

    /// Scans the value after the `=` at the cursor, up to the end of its line or a comment.
    fn parse_value(&mut self) -> (r: Option<String>)
        requires
            old(self).wf(),
            old(self).index() < old(self).text().len() ==> old(self).text()[old(self).index()] == '=',
        ensures
            final(self).wf(),
            final(self).text() == old(self).text(),
            final(self).notes() == old(self).notes(),
            final(self).index() == value_outcome(old(self).text(), old(self).index()).1,
            match value_outcome(old(self).text(), old(self).index()).0 {
                None => r is None,
                Some(v) => r matches Some(value) && value@ == v,
            },
    {
        let ghost s = self.text();
        self.advance();
        let ghost m = self.index();
        self.mark();
        loop
            invariant
                self.wf(),
                self.text() == s,
                self.notes() == old(self).notes(),
                self.marked() == m,
                s == old(self).text(),
                m == (if old(self).index() < s.len() { old(self).index() + 1 } else { old(self).index() }),
                m <= self.index(),
                value_stop(s, self.index()) == value_stop(s, m),
            ensures
                self.index() == s.len(),
                self.index() == value_stop(s, m),
            decreases s.len() - self.index(),
        {
            match self.peek() {
                CharResult::Char(c) => {
                    if c == '\n' || c == '\r' || c == '#' {
                        return Some(self.get_marked_string());
                    }
                    self.advance();
                },
                CharResult::Eof => break,
            }
        }
        None
    }

    /// Passes over the rest of the current line, up to its line break or the end of input.
    fn eat_line(&mut self)
        requires
            old(self).wf(),
        ensures
            final(self).wf(),
            final(self).text() == old(self).text(),
            final(self).notes() == old(self).notes(),
            final(self).marked() == old(self).marked(),
            final(self).index() == line_end(old(self).text(), old(self).index()),
    {
        let ghost s = self.text();
        let ghost i0 = self.index();
        loop
            invariant
                self.wf(),
                self.text() == s,
                self.notes() == old(self).notes(),
                self.marked() == old(self).marked(),
                s == old(self).text(),
                i0 == old(self).index(),
                i0 <= self.index(),
                line_end(s, self.index()) == line_end(s, i0),
            ensures
                self.index() == line_end(s, i0),
            decreases s.len() - self.index(),
        {
            if self.peek() == CharResult::Char('\n') || self.done() {
                break;
            }
            self.advance();
        }
    }

    /// Passes over comment lines and the whitespace after each of them.
    fn eat_comments(&mut self)
        requires
            old(self).wf(),
        ensures
            final(self).wf(),
            final(self).text() == old(self).text(),
            final(self).notes() == old(self).notes(),
            final(self).marked() == old(self).marked(),
            final(self).index() == comments_end(old(self).text(), old(self).index()),
    {
        let ghost s = self.text();
        let ghost i0 = self.index();
        while self.peek() == CharResult::Char('#')
            invariant
                self.wf(),
                self.text() == s,
                self.notes() == old(self).notes(),
                self.marked() == old(self).marked(),
                s == old(self).text(),
                i0 == old(self).index(),
                comments_end(s, self.index()) == comments_end(s, i0),
            decreases s.len() - self.index(),
        {
            proof {
                lemma_scan_until(s, self.index(), |c: char| c == '\n');
                lemma_scan_until(s, line_end(s, self.index()), |c: char| !is_white(c));
            }
            self.eat_line();
            self.eat_whitespace();
        }
    }

    /// Passes over whitespace, comments, and whitespace again.
    fn eat_blank(&mut self)
        requires
            old(self).wf(),
        ensures
            final(self).wf(),
            final(self).text() == old(self).text(),
            final(self).notes() == old(self).notes(),
            final(self).marked() == old(self).marked(),
            final(self).index() == skip(old(self).text(), old(self).index()),
    {
        self.eat_whitespace();
        self.eat_comments();
        self.eat_whitespace();
    }

    /// Scans a section header `[name]`, which must be alone on its line but for
    /// whitespace and a comment.
    fn parse_section(&mut self) -> (r: Result<Option<IniSection>, ParseError>)
        requires
            old(self).wf(),
        ensures
            final(self).wf(),
            final(self).text() == old(self).text(),
            final(self).notes() == old(self).notes(),
            match section_outcome(old(self).text(), old(self).index()) {
                Err(e) => r matches Err(e2) && e2 == e,
                Ok((None, k)) => r matches Ok(None) && final(self).index() == k && *final(self) == *old(self),
                Ok((Some(name), k)) => r matches Ok(Some(sec)) && sec.wf() && sec@ == fresh_section(name)
                    && sec.entries@.len() == 0 && final(self).index() == k,
            },
    {
        let ghost s = self.text();
        let ghost i0 = self.index();
        if self.done() || self.peek() != CharResult::Char('[') {
            return Ok(None);
        }
        self.advance();
        self.mark();
        loop
            invariant
                self.wf(),
                self.text() == s,
                self.notes() == old(self).notes(),
                s == old(self).text(),
                i0 == old(self).index(),
                self.marked() == i0 + 1,
                i0 < s.len() && s[i0] == '[',
                i0 + 1 <= self.index(),
                name_stop(s, self.index()) == name_stop(s, i0 + 1),
            ensures
                self.index() == name_stop(s, i0 + 1),
                self.index() == s.len() || s[self.index()] == ']',
            decreases s.len() - self.index(),
        {
            match self.peek() {
                CharResult::Char(c) => {
                    if c == ']' {
                        break;
                    }
                    if c == '\n' {
                        assert(name_stop(s, self.index()) == self.index());
                        return Err(self.fail(ErrorKind::UnterminatedSectionName));
                    }
                    self.advance();
                },
                CharResult::Eof => break,
            }
        }
        let section_name = self.get_marked_string();
        proof {
            lemma_scan_until(s, i0 + 1, |c: char| c == ']' || c == '\n');
        }
        self.advance();
        let ghost j = name_stop(s, i0 + 1);
        loop
            invariant
                self.wf(),
                self.text() == s,
                self.notes() == old(self).notes(),
                s == old(self).text(),
                i0 == old(self).index(),
                j == name_stop(s, i0 + 1),
                i0 + 1 <= j <= s.len(),
                j < s.len() ==> s[j] == ']',
                i0 < s.len() && s[i0] == '[',
                j < s.len() ==> j + 1 <= self.index() && trail_stop(s, self.index()) == trail_stop(s, j + 1),
                j == s.len() ==> self.index() == s.len(),
                section_name@ == s.subrange(i0 + 1, j),
            ensures
                self.index() == s.len(),
                j < s.len() ==> self.index() == trail_stop(s, j + 1),
            decreases s.len() - self.index(),
        {
            match self.peek() {
                CharResult::Char(c) => {
                    assert(j < s.len());
                    if c == '#' || c == '\n' {
                        assert(trail_stop(s, self.index()) == self.index());
                        assert(s.subrange(i0 + 1, j) == section_name@);
                        return Ok(Some(IniSection::new(section_name.as_str())));
                    }
                    if is_whitespace(c) {
                        self.advance();
                    } else {
                        assert(trail_stop(s, self.index()) == self.index());
                        return Err(self.fail(ErrorKind::ExtraneousCharactersAfterSection));
                    }
                },
                CharResult::Eof => break,
            }
        }
        Err(self.fail(ErrorKind::EndOfInputAfterSection))
    }

    /// Scans a key and its value; an entry comes only where both are there.
    fn parse_entry(&mut self) -> (r: Result<Option<IniEntry>, ParseError>)
        requires
            old(self).wf(),
        ensures
            final(self).wf(),
            final(self).text() == old(self).text(),
            final(self).notes() == old(self).notes() + bracket_notes(
                old(self).text(),
                old(self).index(),
                key_stop(old(self).text(), old(self).index()),
            ),
            match entry_outcome(old(self).text(), old(self).index()) {
                Err(e) => r matches Err(e2) && e2 == e,
                Ok((None, k)) => r matches Ok(None) && final(self).index() == k,
                Ok((Some((key, value)), k)) => r matches Ok(Some(e)) && e.key@ == key && e.value@ == value
                    && final(self).index() == k,
            },
    {
        let ghost s = self.text();
        proof {
            lemma_scan_until(s, self.index(), |c: char| c == '\n' || c == '=');
        }
        let key = match self.parse_key() {
            Err(e) => return Err(e),
            Ok(k) => k,
        };
        let value = self.parse_value();
        match (key, value) {
            (Some(k), Some(v)) => Ok(Some(IniEntry { key: k, value: v })),
            _ => Ok(None),
        }
    }
}

/// Parses INI text into a document and the advisory notes met on the way.
/// With `allow_empty_sections` unset, a section header that is followed by no entry
/// before the next header or the end of input fails the parse; this holds for the last
/// section too.
pub fn parse_ini(content: &str, allow_empty_sections: bool) -> (r: Result<(IniFile, Vec<Warning>), ParseError>)
    requires
        content@.len() < usize::MAX,
    ensures
        match parse_outcome(content@, allow_empty_sections) {
            Err(e) => r matches Err(e2) && e2 == e,
            Ok((m, notes)) => r matches Ok((f, w)) && f.wf() && f@ == m && f.filename@ == "<missing>"@
                && w@ == notes,
        },
        r matches Ok((f, _)) ==> forall|k: Seq<char>| #[trigger] f@.contains_key(k) ==> f@[k].is_default
            || f@[k].has_entries() || allow_empty_sections,
{
    let ghost s = content@;
    let ghost goal = parse_outcome(s, allow_empty_sections);
    let mut ps = ParsableString::new(content);
    let mut active = IniSection::new_default();
    let mut file = IniFile::new("<missing>");
    while !ps.done()
        invariant
            ps.wf(),
            ps.text() == s,
            s == content@,
            active.wf(),
            file.wf(),
            goal == parse_outcome(s, allow_empty_sections),
            file.filename@ == "<missing>"@,
            parse_from(s, ps.index(), active@, file@, ps.notes(), allow_empty_sections) == goal,
        decreases s.len() - ps.index(),
    {
        let ghost i = ps.index();
        let ghost active0 = active@;
        let ghost done0 = file@;
        let ghost notes0 = ps.notes();
        let ghost steps = headers(s, skip(s, i), active0, done0, allow_empty_sections);
        proof {
            lemma_step_progress(s, i, active0, done0, allow_empty_sections);
        }
        ps.eat_blank();
        loop
            invariant
                ps.wf(),
                ps.text() == s,
                s == content@,
                ps.notes() == notes0,
                active.wf(),
                file.wf(),
                file.filename@ == "<missing>"@,
                0 <= ps.index() <= s.len(),
                0 <= i < s.len(),
                goal == parse_outcome(s, allow_empty_sections),
                goal == parse_from(s, i, active0, done0, notes0, allow_empty_sections),
                steps == headers(s, skip(s, i), active0, done0, allow_empty_sections),
                headers(s, ps.index(), active@, file@, allow_empty_sections) == steps,
            ensures
                steps == Ok::<(int, SectionView, Map<Seq<char>, SectionView>), ParseError>(
                    (ps.index(), active@, file@),
                ),
            decreases s.len() - ps.index(),
        {
            let ghost p = ps.index();
            proof {
                lemma_section_progress(s, p);
            }
            match ps.parse_section() {
                Err(e) => {
                    assert(steps == Err::<(int, SectionView, Map<Seq<char>, SectionView>), ParseError>(e));
                    assert(goal == Err::<(Map<Seq<char>, SectionView>, Seq<Warning>), ParseError>(e));
                    return Err(e);
                },
                Ok(None) => break,
                Ok(Some(sec)) => {
                    proof {
                        lemma_entries_present(&active);
                    }
                    if !active.is_default() && active.entries.len() == 0 && !allow_empty_sections {
                        let e = ps.fail(ErrorKind::EmptySection);
                        assert(steps == Err::<(int, SectionView, Map<Seq<char>, SectionView>), ParseError>(e));
                        return Err(e);
                    }
                    file.add_section(active);
                    active = sec;
                    proof {
                        lemma_skip(s, ps.index());
                    }
                    ps.eat_blank();
                },
            }
        }
        proof {
            lemma_entry_progress(s, ps.index());
        }
        match ps.parse_entry() {
            Err(e) => {
                assert(goal == Err::<(Map<Seq<char>, SectionView>, Seq<Warning>), ParseError>(e));
                return Err(e);
            },
            Ok(Some(e)) => {
                active.add_entry(e);
            },
            Ok(None) => {},
        }
    }
    proof {
        lemma_entries_present(&active);
    }
    if !active.is_default() && active.entries.len() == 0 && !allow_empty_sections {
        return Err(ps.fail(ErrorKind::EmptySection));
    }
    file.add_section(active);
    proof {
        assert(goal == Ok::<(Map<Seq<char>, SectionView>, Seq<Warning>), ParseError>((file@, ps.notes())));
        lemma_parse_from_filled(s, 0, default_section(), Map::empty(), Seq::empty(), allow_empty_sections);
        assert(sections_filled(file@, allow_empty_sections));
    }
    Ok((file, ps.warnings))
}

} // verus!
