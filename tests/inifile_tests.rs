use ini_parser::inifile::{IniEntry, IniFile, IniSection};

#[test]
fn create_blank_file() {
    let inifile = IniFile::new("test");

    assert_eq!(inifile.filename, "test");
    assert_eq!(inifile.sections.len(), 0);
}

#[test]
fn create_one_entry() {
    let mut inifile = IniFile::new("test");
    inifile.add_section(IniSection::new("test"));
    if let Some(sec) = inifile.get_section("test") {
        sec.create_entry("test", "test")
    };

    assert_eq!(inifile.sections.len(), 1);
    assert_eq!(inifile.peek_section("test").unwrap().entries.len(), 1);
    assert_eq!(
        inifile
            .peek_section("test")
            .unwrap()
            .peek_entry("test")
            .unwrap()
            .value,
        "test"
    );
}

#[test]
fn create_two_entries() {
    let mut inifile = IniFile::new("test");
    inifile.add_section(IniSection::new("test"));
    if let Some(sec) = inifile.get_section("test") {
        sec.create_entry("test", "test")
    };
    if let Some(sec) = inifile.get_section("test") {
        sec.create_entry("test2", "test2")
    };

    assert_eq!(inifile.sections.len(), 1);
    assert_eq!(inifile.peek_section("test").unwrap().entries.len(), 2);
    assert_eq!(
        inifile
            .peek_section("test")
            .unwrap()
            .peek_entry("test")
            .unwrap()
            .value,
        "test"
    );
}

#[test]
fn same_key_keeps_last_value() {
    let mut sec = IniSection::new("s");
    sec.create_entry("k", "first");
    sec.add_entry(IniEntry { key: "k".to_string(), value: "second".to_string() });
    assert_eq!(sec.entries.len(), 1);
    assert_eq!(sec.peek_value("k"), Some("second"));
}

#[test]
fn same_section_name_replaces_section() {
    let mut file = IniFile::new("f");
    let mut a = IniSection::new("a");
    a.create_entry("x", "1");
    file.add_section(a);
    let mut b = IniSection::new("a");
    b.create_entry("y", "2");
    file.add_section(b);
    assert_eq!(file.sections.len(), 1);
    let sec = file.peek_section("a").unwrap();
    assert!(sec.peek_entry("x").is_none());
    assert_eq!(sec.peek_value("y"), Some("2"));
}

#[test]
fn default_section_is_flagged() {
    let d = IniSection::new_default();
    assert!(d.is_default());
    assert_eq!(d.name, "<default>");
    assert!(!IniSection::new("a").is_default());
}

#[test]
fn lookups_across_sections() {
    let mut file = IniFile::new("f");
    file.set_entry("a", "x", "1");
    file.set_entry("b", "y", "2");
    assert_eq!(file.peek_value("y"), Some("2"));
    assert_eq!(file.peek_value("z"), None);
    let (sec, v) = file.peek("x").unwrap();
    assert_eq!(sec.name, "a");
    assert_eq!(v, "1");
    if let Some(e) = file.get_entry("y") {
        e.value = "3".to_string();
    }
    assert_eq!(file.peek_value("y"), Some("3"));
    assert!(file.get_entry("z").is_none());
}

#[test]
fn get_value_changes_value() {
    let mut sec = IniSection::new("s");
    sec.create_entry("k", "v");
    if let Some(v) = sec.get_value("k") {
        v.push_str("w");
    }
    assert_eq!(sec.peek_value("k"), Some("vw"));
    assert!(sec.get_value("missing").is_none());
    assert_eq!(sec.get_entry("k").unwrap().key, "k");
}

#[test]
fn set_entry_overwrites_and_creates() {
    let mut file = IniFile::new("f");
    file.set_entry("a", "x", "1");
    file.set_entry("a", "x", "2");
    assert_eq!(file.sections.len(), 1);
    assert_eq!(file.peek_section("a").unwrap().entries.len(), 1);
    assert_eq!(file.peek_section("a").unwrap().peek_value("x"), Some("2"));
}

#[test]
fn serializes_default_first_then_sections() {
    let mut file = IniFile::new("f");
    let mut a = IniSection::new("a");
    a.create_entry("x", "1");
    file.add_section(a);
    file.add_section(IniSection::new("empty"));
    let mut d = IniSection::new_default();
    d.create_entry("top", "t");
    file.add_section(d);
    assert_eq!(file.to_ini_string(false), "top = t\n\n[a]\nx = 1\n");
    assert_eq!(file.to_ini_string(true), "top = t\n\n[a]\nx = 1\n\n[empty]\n");
}

#[test]
fn serializes_empty_document() {
    let file = IniFile::new("f");
    assert_eq!(file.to_ini_string(true), "");
}
