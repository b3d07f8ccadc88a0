use ini_parser::configfile::ConfigFile;
use ini_parser::parsing::parser_util::{inc_char, inc_line, ParserLocation};
use ini_parser::parsing::{format_error, parse_ini, CharResult, ErrorKind, ParsableString};

#[test]
fn section_with_one_entry() {
    let (file, notes) = parse_ini("[a]\nx=1\n", false).unwrap();
    let a = file.peek_section("a").unwrap();
    assert_eq!(a.entries.len(), 1);
    assert_eq!(a.peek_value("x"), Some("1"));
    assert!(notes.is_empty());
    assert_eq!(file.filename, "<missing>");
}

#[test]
fn empty_section_fails() {
    let e = parse_ini("[a]\n", false).unwrap_err();
    assert_eq!(e.kind, ErrorKind::EmptySection);
}

#[test]
fn empty_section_allowed() {
    let (file, _) = parse_ini("[a]\n", true).unwrap();
    assert_eq!(file.peek_section("a").unwrap().entries.len(), 0);
}

#[test]
fn empty_section_before_next_header_fails() {
    let e = parse_ini("[a]\n[b]\nx=1\n", false).unwrap_err();
    assert_eq!(e.kind, ErrorKind::EmptySection);
    assert_eq!((e.line, e.col, e.pos), (2, 4, 8));
}

#[test]
fn entries_without_headers_go_to_default() {
    let (file, _) = parse_ini("x=1\ny=2\n", false).unwrap();
    assert_eq!(file.sections.len(), 1);
    let d = file.peek_section("<default>").unwrap();
    assert!(d.is_default());
    assert_eq!(d.peek_value("x"), Some("1"));
    assert_eq!(d.peek_value("y"), Some("2"));
}

#[test]
fn extraneous_characters_after_header() {
    let e = parse_ini("[a] extra\n", false).unwrap_err();
    assert_eq!(e.kind, ErrorKind::ExtraneousCharactersAfterSection);
    assert_eq!((e.line, e.col, e.pos), (1, 5, 5));
}

#[test]
fn bracket_in_key_is_noted() {
    let (file, notes) = parse_ini("k[x]=v\n", false).unwrap();
    let d = file.peek_section("<default>").unwrap();
    assert_eq!(d.peek_entry("k[x]").unwrap().key, "k[x]");
    assert_eq!(d.peek_value("k[x]"), Some("v"));
    assert_eq!(notes.len(), 2);
    assert_eq!(notes[0].ch, '[');
    assert_eq!((notes[0].line, notes[0].col, notes[0].pos), (1, 2, 2));
    assert_eq!(notes[1].ch, ']');
    assert_eq!(notes[1].pos, 4);
}

#[test]
fn comment_lines_contribute_nothing() {
    let (with, _) = parse_ini("# anything\n[a]\n# more [b]\nx=1\n", false).unwrap();
    let (without, _) = parse_ini("[a]\nx=1\n", false).unwrap();
    assert_eq!(with.sections.len(), without.sections.len());
    assert_eq!(with.peek_section("a").unwrap().entries.len(), 1);
    assert_eq!(with.peek_section("a").unwrap().peek_value("x"), Some("1"));
    assert!(with.peek_section("b").is_none());
}

#[test]
fn comment_ends_value() {
    let (file, _) = parse_ini("x=1 # note\n", false).unwrap();
    assert_eq!(file.peek_section("<default>").unwrap().peek_value("x"), Some("1 "));
}

#[test]
fn comment_at_end_without_newline() {
    let (file, _) = parse_ini("x=1\n# last", false).unwrap();
    assert_eq!(file.peek_section("<default>").unwrap().peek_value("x"), Some("1"));
}

#[test]
fn missing_equals() {
    let e = parse_ini("abc\n", false).unwrap_err();
    assert_eq!(e.kind, ErrorKind::MissingEquals);
    assert_eq!((e.line, e.col, e.pos), (1, 4, 4));
}

#[test]
fn unterminated_section_name() {
    let e = parse_ini("x=1\n[ab\n", false).unwrap_err();
    assert_eq!(e.kind, ErrorKind::UnterminatedSectionName);
    assert_eq!((e.line, e.col, e.pos), (2, 4, 8));
}

#[test]
fn header_at_end_of_input() {
    let e = parse_ini("[a]", true).unwrap_err();
    assert_eq!(e.kind, ErrorKind::EndOfInputAfterSection);
    let e = parse_ini("[a", true).unwrap_err();
    assert_eq!(e.kind, ErrorKind::EndOfInputAfterSection);
}

#[test]
fn value_cut_off_by_end_of_input_is_dropped() {
    let (file, _) = parse_ini("x=1\ny=2", false).unwrap();
    let d = file.peek_section("<default>").unwrap();
    assert_eq!(d.peek_value("x"), Some("1"));
    assert!(d.peek_value("y").is_none());
}

#[test]
fn empty_input() {
    let (file, notes) = parse_ini("", false).unwrap();
    assert_eq!(file.sections.len(), 1);
    assert_eq!(file.peek_section("<default>").unwrap().entries.len(), 0);
    assert!(notes.is_empty());
}

#[test]
fn spaces_around_equals_are_kept() {
    let (file, _) = parse_ini("x = 1\n", false).unwrap();
    assert_eq!(file.peek_section("<default>").unwrap().peek_value("x "), Some(" 1"));
}

#[test]
fn duplicate_key_last_wins_in_parse() {
    let (file, _) = parse_ini("[s]\nk=1\nk=2\n", false).unwrap();
    let s = file.peek_section("s").unwrap();
    assert_eq!(s.entries.len(), 1);
    assert_eq!(s.peek_value("k"), Some("2"));
}

#[test]
fn header_followed_by_comment_and_crlf() {
    let (file, _) = parse_ini("[a] # c\r\nx=1\r\n", false).unwrap();
    assert_eq!(file.peek_section("a").unwrap().peek_value("x"), Some("1"));
}

#[test]
fn scanner_tracks_position() {
    let mut ps = ParsableString::new("a\nb");
    assert!(!ps.done());
    assert_eq!(ps.peek(), CharResult::Char('a'));
    ps.mark();
    assert_eq!(ps.advance(), CharResult::Char('a'));
    assert!(ps.is_marked());
    assert_eq!(ps.get_marked_string(), "a");
    assert_eq!(ps.advance(), CharResult::Char('\n'));
    assert_eq!(ps.error("oops"), "Parse error: oops at line 2, column 1 (char 3)");
    ps.unmark();
    assert!(!ps.is_marked());
    assert_eq!(ps.advance(), CharResult::Char('b'));
    assert!(ps.done());
    assert_eq!(ps.advance(), CharResult::Eof);
    assert_eq!(ps.peek(), CharResult::Eof);
}

#[test]
fn error_text_has_position() {
    assert_eq!(
        format_error("Missing equals sign in file", 12, 3, 140),
        "Parse error: Missing equals sign in file at line 12, column 3 (char 140)"
    );
}

#[test]
fn location_counters() {
    let mut loc = ParserLocation { pos: 1, line: 1, col: 1 };
    inc_char(&mut loc);
    assert_eq!((loc.pos, loc.line, loc.col), (2, 1, 2));
    inc_line(&mut loc);
    assert_eq!((loc.pos, loc.line, loc.col), (3, 2, 1));
}

#[test]
fn config_file_values() {
    let mut c = ConfigFile::load("[s]\nk=v\n", false).unwrap();
    assert_eq!(c.value_in("s", "k"), Some("v"));
    assert_eq!(c.value("k"), Some("v"));
    assert_eq!(c.value_in("t", "k"), None);
    c.set_value("d", "1");
    c.set_value_in("s", "k", "w");
    c.set_value_in("n", "a", "b");
    assert_eq!(c.value_in("<default>", "d"), Some("1"));
    assert_eq!(c.value_in("s", "k"), Some("w"));
    assert_eq!(c.value_in("n", "a"), Some("b"));
    assert!(ConfigFile::load("[s]\n", false).is_err());
}

#[test]
fn config_file_text() {
    let mut c = ConfigFile::new("cfg");
    assert_eq!(c.value("k"), None);
    c.set_value_in("s", "k", "v");
    assert_eq!(c.write(), "\n[s]\nk = v\n");
}

#[test]
fn error_messages() {
    assert_eq!(ErrorKind::FileReadFailure.message(), "Could not read file");
    assert_eq!(ErrorKind::FileWriteFailure.message(), "Could not write file");
    let e = parse_ini("abc\n", false).unwrap_err();
    assert_eq!(
        e.message(),
        "Parse error: Missing equals sign in file at line 1, column 4 (char 4)"
    );
}

#[test]
fn round_trip_of_blank_document() {
    let (file, _) = parse_ini("", false).unwrap();
    let text = file.to_ini_string(true);
    assert_eq!(text, "");
    let (again, _) = parse_ini(&text, false).unwrap();
    assert_eq!(again.sections.len(), 1);
    assert!(again.peek_section("<default>").unwrap().is_default());
}

#[test]
fn round_trip_pads_keys_and_values() {
    let (file, _) = parse_ini("[a]\nx=1\n", false).unwrap();
    let text = file.to_ini_string(false);
    assert_eq!(text, "\n[a]\nx = 1\n");
    let (again, _) = parse_ini(&text, false).unwrap();
    assert_eq!(again.peek_section("a").unwrap().peek_value("x "), Some(" 1"));
}
