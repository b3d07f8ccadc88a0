use vstd::prelude::*;
use crate::inifile::{IniFile, IniSection, SectionView, default_name, ini_text, some_section_gives, some_section_holds};
use crate::parsing::grammar::parse_outcome;
use crate::parsing::{ParseError, parse_ini};

verus! {

/// A flat view over a document: values by key, in the default section or in a named one.
pub struct ConfigFile {
    inifile: IniFile,
}

impl ConfigFile {
    /// The sections of the underlying document, by name.
    pub closed spec fn doc(&self) -> Map<Seq<char>, SectionView> {
        self.inifile@
    }

    /// The sections of the underlying document, in order.
    pub closed spec fn sections(&self) -> Seq<IniSection> {
        self.inifile.sections@
    }

    pub closed spec fn wf(&self) -> bool {
        self.inifile.wf()
    }

    pub fn new(named: &str) -> (r: ConfigFile)
        ensures
            r.wf(),
            r.doc() == Map::<Seq<char>, SectionView>::empty(),
    {
        ConfigFile { inifile: IniFile::new(named) }
    }

    /// Parses the INI text `content` into a configuration.
    pub fn load(content: &str, allow_empty_sections: bool) -> (r: Result<ConfigFile, ParseError>)
        requires
            content@.len() < usize::MAX,
        ensures
            match parse_outcome(content@, allow_empty_sections) {
                Err(e) => r matches Err(e2) && e2 == e,
                Ok((m, _)) => r matches Ok(c) && c.wf() && c.doc() == m,
            },
    {
        match parse_ini(content, allow_empty_sections) {
            Ok((file, _)) => Ok(ConfigFile { inifile: file }),
            Err(e) => Err(e),
        }
    }

    /// The value under `key` in some section that holds it, if any does.
    pub fn value(&self, key: &str) -> (r: Option<&str>)
        requires
            self.wf(),
        ensures
            r is Some <==> some_section_holds(self.doc(), key@),
            r matches Some(v) ==> some_section_gives(self.doc(), key@, v@),
    {
        self.inifile.peek_value(key)
    }

    /// The value under `key` in the section named `section`, if there is one.
    pub fn value_in(&self, section: &str, key: &str) -> (r: Option<&str>)
        requires
            self.wf(),
        ensures
            r is Some <==> self.doc().contains_key(section@) && self.doc()[section@].entries.contains_key(key@),
            r matches Some(v) ==> v@ == self.doc()[section@].entries[key@],
    {
        match self.inifile.peek_section(section) {
            Some(sec) => sec.peek_value(key),
            None => None,
        }
    }

    /// Sets `key = value` in the default section.
    pub fn set_value(&mut self, key: &str, value: &str)
        requires
            old(self).wf(),
        ensures
            final(self).wf(),
            final(self).doc() == old(self).doc().insert(
                default_name(),
                if old(self).doc().contains_key(default_name()) {
                    old(self).doc()[default_name()].with_entry(key@, value@)
                } else {
                    (SectionView { name: default_name(), entries: Map::empty(), is_default: false }).with_entry(
                        key@,
                        value@,
                    )
                },
            ),
    {
        proof {
            reveal_strlit("<default>");
            assert("<default>"@ =~= default_name());
        }
        self.set_value_in("<default>", key, value);
    }

    /// Sets `key = value` in the section named `section`, which is created where there is none.
    pub fn set_value_in(&mut self, section: &str, key: &str, value: &str)
        requires
            old(self).wf(),
        ensures
            final(self).wf(),
            final(self).doc() == old(self).doc().insert(
                section@,
                if old(self).doc().contains_key(section@) {
                    old(self).doc()[section@].with_entry(key@, value@)
                } else {
                    (SectionView { name: section@, entries: Map::empty(), is_default: false }).with_entry(key@, value@)
                },
            ),
    {
        self.inifile.set_entry(section, key, value);
    }

    /// The configuration as INI text, leaving out sections without entries.
    pub fn write(&self) -> (r: String)
        ensures
            r@ == ini_text(self.sections(), false),
    {
        self.inifile.to_ini_string(false)
    }
}

} // verus!
