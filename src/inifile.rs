use vstd::prelude::*;
use vstd::string::StringExecFns;

verus! {

/// One `key = value` pair of a section.
#[derive(Debug)]
pub struct IniEntry {
    pub key: String,
    pub value: String,
}

/// What a list of entries means: each key maps to the value of the last entry that carries it.
pub open spec fn entry_map(es: Seq<IniEntry>) -> Map<Seq<char>, Seq<char>>
    decreases es.len(),
{
    if es.len() == 0 {
        Map::empty()
    } else {
        entry_map(es.drop_last()).insert(es.last().key@, es.last().value@)
    }
}

/// The index of an entry with key `k`.
pub open spec fn key_position(es: Seq<IniEntry>, k: Seq<char>) -> int {
    choose|i: int| 0 <= i < es.len() && es[i].key@ == k
}

/// No two entries of the list share a key.
pub open spec fn entry_keys_unique(es: Seq<IniEntry>) -> bool {
    forall|i: int, j: int| 0 <= i < j < es.len() ==> es[i].key@ != es[j].key@
}

/// With unique keys, the map of a list of entries holds each entry's key with that entry's value.
pub proof fn lemma_entry_map_index(es: Seq<IniEntry>, i: int)
    requires
        entry_keys_unique(es),
        0 <= i < es.len(),
    ensures
        entry_map(es).contains_key(es[i].key@),
        entry_map(es)[es[i].key@] == es[i].value@,
    decreases es.len(),
{
    if i < es.len() - 1 {
        lemma_entry_map_index(es.drop_last(), i);
    }
}

/// A key that no entry carries is not in the map of the entries.
pub proof fn lemma_entry_map_absent(es: Seq<IniEntry>, k: Seq<char>)
    requires
        forall|i: int| 0 <= i < es.len() ==> es[i].key@ != k,
    ensures
        !entry_map(es).contains_key(k),
    decreases es.len(),
{
    if es.len() > 0 {
        lemma_entry_map_absent(es.drop_last(), k);
    }
}

/// Replacing the entry that carries a key changes the map of the entries at that key only.
pub proof fn lemma_entry_map_update(es: Seq<IniEntry>, i: int, e: IniEntry)
    requires
        entry_keys_unique(es),
        0 <= i < es.len(),
        es[i].key@ == e.key@,
    ensures
        entry_map(es.update(i, e)) == entry_map(es).insert(e.key@, e.value@),
    decreases es.len(),
{
    let es2 = es.update(i, e);
    if i == es.len() - 1 {
        assert(es2.drop_last() =~= es.drop_last());
    } else {
        assert(es2.drop_last() =~= es.drop_last().update(i, e));
        lemma_entry_map_update(es.drop_last(), i, e);
        assert(entry_map(es2) =~= entry_map(es).insert(e.key@, e.value@));
    }
}


/// The meaning of a section: its name, its entries as a map from key to value, and
/// whether it is the section that holds the entries written before any header.
pub struct SectionView {
    pub name: Seq<char>,
    pub entries: Map<Seq<char>, Seq<char>>,
    pub is_default: bool,
}

impl SectionView {
    pub open spec fn with_entry(self, k: Seq<char>, v: Seq<char>) -> SectionView {
        SectionView { name: self.name, entries: self.entries.insert(k, v), is_default: self.is_default }
    }

    /// The section holds at least one entry.
    pub open spec fn has_entries(self) -> bool {
        exists|k: Seq<char>| self.entries.contains_key(k)
    }
}

/// The name under which entries that precede every header are kept.
pub open spec fn default_name() -> Seq<char> {
    seq!['<', 'd', 'e', 'f', 'a', 'u', 'l', 't', '>']
}

/// A named group of entries.
#[derive(Debug)]
pub struct IniSection {
    pub name: String,
    pub entries: Vec<IniEntry>,
    pub is_default: bool,
}

impl View for IniSection {
    type V = SectionView;

    open spec fn view(&self) -> SectionView {
        SectionView { name: self.name@, entries: entry_map(self.entries@), is_default: self.is_default }
    }
}

impl IniSection {
    /// Each key occurs in one entry at most.
    pub open spec fn wf(&self) -> bool {
        entry_keys_unique(self.entries@)
    }

    pub fn new(name: &str) -> (r: IniSection)
        ensures
            r.wf(),
            r@ == (SectionView { name: name@, entries: Map::empty(), is_default: false }),
            r.entries@.len() == 0,
    {
        IniSection { name: name.to_owned(), entries: Vec::new(), is_default: false }
    }

    pub fn new_default() -> (r: IniSection)
        ensures
            r.wf(),
            r@ == (SectionView { name: default_name(), entries: Map::empty(), is_default: true }),
            r.entries@.len() == 0,
    {
        let name = String::from_str("<default>");
        proof {
            reveal_strlit("<default>");
            assert(name@ =~= default_name());
        }
        IniSection { name, entries: Vec::new(), is_default: true }
    }

    pub fn is_default(&self) -> (r: bool)
        ensures
            r == self@.is_default,
    {
        self.is_default
    }

    /// The position of the entry with key `key`, if there is one.
    fn find_entry(&self, key: &String) -> (r: Option<usize>)
        ensures
            match r {
                Some(i) => i < self.entries@.len() && self.entries@[i as int].key@ == key@,
                None => forall|i: int| 0 <= i < self.entries@.len() ==> self.entries@[i].key@ != key@,
            },
    {
        let mut i: usize = 0;
        while i < self.entries.len()
            invariant
                i <= self.entries@.len(),
                forall|j: int| 0 <= j < i ==> self.entries@[j].key@ != key@,
            decreases self.entries@.len() - i,
        {
            if self.entries[i].key == *key {
                return Some(i);
            }
            i += 1;
        }
        None
    }

    /// Adds `entry`, replacing the entry with the same key if there is one.
    pub fn add_entry(&mut self, entry: IniEntry)
        requires
            old(self).wf(),
        ensures
            final(self).wf(),
            final(self)@ == old(self)@.with_entry(entry.key@, entry.value@),
    {
        match self.find_entry(&entry.key) {
            Some(i) => {
                proof {
                    lemma_entry_map_update(self.entries@, i as int, entry);
                }
                self.entries.set(i, entry);
            },
            None => {
                let ghost old_entries = self.entries@;
                self.entries.push(entry);
                proof {
                    assert(self.entries@.drop_last() =~= old_entries);
                }
            },
        }
    }

    /// Adds the entry `key = value`, replacing the entry with the same key if there is one.
    pub fn create_entry(&mut self, key: &str, value: &str)
        requires
            old(self).wf(),
        ensures
            final(self).wf(),
            final(self)@ == old(self)@.with_entry(key@, value@),
    {
        self.add_entry(IniEntry { key: key.to_owned(), value: value.to_owned() });
    }

    /// The entry with key `key`, if there is one.
    pub fn peek_entry(&self, key: &str) -> (r: Option<&IniEntry>)
        requires
            self.wf(),
        ensures
            r is Some <==> self@.entries.contains_key(key@),
            r matches Some(e) ==> e.key@ == key@ && e.value@ == self@.entries[key@],
    {
        let k = key.to_owned();
        match self.find_entry(&k) {
            Some(i) => {
                proof {
                    lemma_entry_map_index(self.entries@, i as int);
                }
                Some(&self.entries[i])
            },
            None => {
                proof {
                    lemma_entry_map_absent(self.entries@, key@);
                }
                None
            },
        }
    }

    /// The value under `key`, if there is one.
    pub fn peek_value(&self, key: &str) -> (r: Option<&str>)
        requires
            self.wf(),
        ensures
            r is Some <==> self@.entries.contains_key(key@),
            r matches Some(v) ==> v@ == self@.entries[key@],
    {
        match self.peek_entry(key) {
            Some(e) => Some(e.value.as_str()),
            None => None,
        }
    }

    /// The value under `key`, open to change, if there is one.
    pub fn get_value(&mut self, key: &str) -> (r: Option<&mut String>)
        requires
            old(self).wf(),
        ensures
            r is Some <==> old(self)@.entries.contains_key(key@),
            r is None ==> *final(self) == *old(self),
            r matches Some(v) ==> v@ == old(self)@.entries[key@] && final(self).entries@ == old(self).entries@.update(
                key_position(old(self).entries@, key@),
                IniEntry { key: old(self).entries@[key_position(old(self).entries@, key@)].key, value: *final(v) },
            ),
            final(self).name == old(self).name,
            final(self).is_default == old(self).is_default,
    {
        let k = key.to_owned();
        match self.find_entry(&k) {
            Some(i) => {
                proof {
                    lemma_entry_map_index(self.entries@, i as int);
                }
                Some(&mut self.entries[i].value)
            },
            None => {
                proof {
                    lemma_entry_map_absent(self.entries@, key@);
                }
                None
            },
        }
    }

    /// The entry with key `key`, open to change, if there is one.
    pub fn get_entry(&mut self, key: &str) -> (r: Option<&mut IniEntry>)
        requires
            old(self).wf(),
        ensures
            r is Some <==> old(self)@.entries.contains_key(key@),
            r is None ==> *final(self) == *old(self),
            r matches Some(e) ==> e.key@ == key@ && e.value@ == old(self)@.entries[key@]
                && final(self).entries@ == old(self).entries@.update(
                key_position(old(self).entries@, key@),
                *final(e),
            ),
            final(self).name == old(self).name,
            final(self).is_default == old(self).is_default,
    {
        let k = key.to_owned();
        match self.find_entry(&k) {
            Some(i) => {
                proof {
                    lemma_entry_map_index(self.entries@, i as int);
                }
                Some(&mut self.entries[i])
            },
            None => {
                proof {
                    lemma_entry_map_absent(self.entries@, key@);
                }
                None
            },
        }
    }
}


/// What a list of sections means: each name maps to the last section that carries it.
pub open spec fn section_map(ss: Seq<IniSection>) -> Map<Seq<char>, SectionView>
    decreases ss.len(),
{
    if ss.len() == 0 {
        Map::empty()
    } else {
        section_map(ss.drop_last()).insert(ss.last().name@, ss.last()@)
    }
}

/// The index of a section named `n`.
pub open spec fn name_position(ss: Seq<IniSection>, n: Seq<char>) -> int {
    choose|i: int| 0 <= i < ss.len() && ss[i].name@ == n
}

/// No two sections of the list share a name.
pub open spec fn section_names_unique(ss: Seq<IniSection>) -> bool {
    forall|i: int, j: int| 0 <= i < j < ss.len() ==> ss[i].name@ != ss[j].name@
}

/// With unique names, the map of a list of sections holds each section under its name.
pub proof fn lemma_section_map_index(ss: Seq<IniSection>, i: int)
    requires
        section_names_unique(ss),
        0 <= i < ss.len(),
    ensures
        section_map(ss).contains_key(ss[i].name@),
        section_map(ss)[ss[i].name@] == ss[i]@,
    decreases ss.len(),
{
    if i < ss.len() - 1 {
        lemma_section_map_index(ss.drop_last(), i);
    }
}

/// A name that no section carries is not in the map of the sections.
pub proof fn lemma_section_map_absent(ss: Seq<IniSection>, k: Seq<char>)
    requires
        forall|i: int| 0 <= i < ss.len() ==> ss[i].name@ != k,
    ensures
        !section_map(ss).contains_key(k),
    decreases ss.len(),
{
    if ss.len() > 0 {
        lemma_section_map_absent(ss.drop_last(), k);
    }
}

/// Each section in the map of a list of sections is the view of a section of the list.
pub proof fn lemma_section_map_holder(ss: Seq<IniSection>, n: Seq<char>)
    ensures
        section_map(ss).contains_key(n) ==> exists|i: int| 0 <= i < ss.len() && #[trigger] ss[i]@ == section_map(ss)[n],
    decreases ss.len(),
{
    if ss.len() > 0 {
        lemma_section_map_holder(ss.drop_last(), n);
        if section_map(ss).contains_key(n) && ss.last().name@ != n {
            let i = choose|i: int| 0 <= i < ss.len() - 1 && #[trigger] ss.drop_last()[i]@ == section_map(ss.drop_last())[n];
            assert(ss[i]@ == section_map(ss)[n]);
        }
        if section_map(ss).contains_key(n) && ss.last().name@ == n {
            assert(ss[ss.len() - 1]@ == section_map(ss)[n]);
        }
    }
}

/// Replacing the section that carries a name changes the map of the sections at that name only.
pub proof fn lemma_section_map_update(ss: Seq<IniSection>, i: int, s: IniSection)
    requires
        section_names_unique(ss),
        0 <= i < ss.len(),
        ss[i].name@ == s.name@,
    ensures
        section_map(ss.update(i, s)) == section_map(ss).insert(s.name@, s@),
    decreases ss.len(),
{
    let ss2 = ss.update(i, s);
    if i == ss.len() - 1 {
        assert(ss2.drop_last() =~= ss.drop_last());
    } else {
        assert(ss2.drop_last() =~= ss.drop_last().update(i, s));
        lemma_section_map_update(ss.drop_last(), i, s);
        assert(section_map(ss2) =~= section_map(ss).insert(s.name@, s@));
    }
}

/// The first index from `i` on of a section that holds the key `k`, or the length of `ss`.
pub open spec fn holder_from(ss: Seq<IniSection>, k: Seq<char>, i: int) -> int
    decreases ss.len() - i,
{
    if i < 0 || i >= ss.len() {
        ss.len() as int
    } else if ss[i]@.entries.contains_key(k) {
        i
    } else {
        holder_from(ss, k, i + 1)
    }
}

/// The index of the first section that holds the key `k`.
pub open spec fn first_holder(ss: Seq<IniSection>, k: Seq<char>) -> int {
    holder_from(ss, k, 0)
}

/// `after` is `before` with the entry under key `k` of the section at index `i` replaced by `e`.
pub open spec fn entry_changed_in(
    before: Seq<IniSection>,
    after: Seq<IniSection>,
    i: int,
    k: Seq<char>,
    e: IniEntry,
) -> bool {
    &&& after.len() == before.len()
    &&& 0 <= i < before.len()
    &&& forall|j: int| 0 <= j < before.len() && j != i ==> after[j] == before[j]
    &&& after[i].name == before[i].name
    &&& after[i].is_default == before[i].is_default
    &&& after[i].entries@ == before[i].entries@.update(key_position(before[i].entries@, k), e)
}

/// Some section of `m` holds the key `k`.
pub open spec fn some_section_holds(m: Map<Seq<char>, SectionView>, k: Seq<char>) -> bool {
    exists|n: Seq<char>| #[trigger] m.contains_key(n) && m[n].entries.contains_key(k)
}

/// Some section of `m` holds the key `k`, with the value `v`.
pub open spec fn some_section_gives(m: Map<Seq<char>, SectionView>, k: Seq<char>, v: Seq<char>) -> bool {
    exists|n: Seq<char>| #[trigger] m.contains_key(n) && m[n].entries.contains_key(k) && m[n].entries[k] == v
}

/// Writing two entries with the same key into a section leaves one entry under that
/// key, holding the value written last.
pub proof fn lemma_same_key_last_wins(sec: SectionView, k: Seq<char>, v1: Seq<char>, v2: Seq<char>)
    ensures
        sec.with_entry(k, v1).with_entry(k, v2) == sec.with_entry(k, v2),
        sec.with_entry(k, v1).with_entry(k, v2).entries[k] == v2,
{
    assert(sec.with_entry(k, v1).with_entry(k, v2).entries =~= sec.with_entry(k, v2).entries);
}

/// A section has entries exactly when its list of entries is not empty.
pub proof fn lemma_entries_present(sec: &IniSection)
    ensures
        sec@.has_entries() <==> sec.entries@.len() > 0,
{
    let es = sec.entries@;
    if es.len() == 0 {
        assert(entry_map(es) == Map::<Seq<char>, Seq<char>>::empty());
        assert(!sec@.has_entries());
    } else {
        assert(sec@.entries.contains_key(es.last().key@));
    }
}


/// The lines `key = value` of a list of entries, in order.
pub open spec fn entries_text(es: Seq<IniEntry>) -> Seq<char>
    decreases es.len(),
{
    if es.len() == 0 {
        Seq::empty()
    } else {
        entries_text(es.drop_last()) + es.last().key@ + " = "@ + es.last().value@ + "\n"@
    }
}

/// The entry lines of the last section named `name`, if there is one.
pub open spec fn named_entries_text(ss: Seq<IniSection>, name: Seq<char>) -> Seq<char>
    decreases ss.len(),
{
    if ss.len() == 0 {
        Seq::empty()
    } else if ss.last().name@ == name {
        entries_text(ss.last().entries@)
    } else {
        named_entries_text(ss.drop_last(), name)
    }
}

/// Whether the section `sec` is written under a header.
pub open spec fn written_with_header(sec: IniSection, include_empty: bool) -> bool {
    !sec.is_default && (include_empty || sec.entries@.len() > 0)
}

/// A blank line, a header and the entry lines, for each section written under a header.
pub open spec fn sections_text(ss: Seq<IniSection>, include_empty: bool) -> Seq<char>
    decreases ss.len(),
{
    if ss.len() == 0 {
        Seq::empty()
    } else if written_with_header(ss.last(), include_empty) {
        sections_text(ss.drop_last(), include_empty) + "\n["@ + ss.last().name@ + "]\n"@ + entries_text(
            ss.last().entries@,
        )
    } else {
        sections_text(ss.drop_last(), include_empty)
    }
}

/// A document as text: the entries of the default section, unprefixed, then the other sections.
pub open spec fn ini_text(ss: Seq<IniSection>, include_empty: bool) -> Seq<char> {
    named_entries_text(ss, default_name()) + sections_text(ss, include_empty)
}

/// Appends the entry lines of `sec` to `out`.
fn write_entries(out: &mut String, sec: &IniSection)
    ensures
        final(out)@ == old(out)@ + entries_text(sec.entries@),
{
    let mut i: usize = 0;
    while i < sec.entries.len()
        invariant
            i <= sec.entries@.len(),
            out@ == old(out)@ + entries_text(sec.entries@.subrange(0, i as int)),
        decreases sec.entries@.len() - i,
    {
        let e = &sec.entries[i];
        out.append(e.key.as_str());
        out.append(" = ");
        out.append(e.value.as_str());
        out.append("\n");
        proof {
            reveal_strlit(" = ");
            reveal_strlit("\n");
            let es = sec.entries@.subrange(0, i + 1);
            assert(es.drop_last() =~= sec.entries@.subrange(0, i as int));
            assert(es.last() == sec.entries@[i as int]);
            assert(out@ =~= old(out)@ + entries_text(es));
        }
        i += 1;
    }
    assert(sec.entries@.subrange(0, i as int) =~= sec.entries@);
}

/// A parsed or assembled INI document: a source name and its sections.
#[derive(Debug)]
pub struct IniFile {
    pub filename: String,
    pub sections: Vec<IniSection>,
}

impl View for IniFile {
    type V = Map<Seq<char>, SectionView>;

    open spec fn view(&self) -> Map<Seq<char>, SectionView> {
        section_map(self.sections@)
    }
}

impl IniFile {
    /// Section names are unique and every section is well formed.
    pub open spec fn wf(&self) -> bool {
        &&& section_names_unique(self.sections@)
        &&& forall|i: int| 0 <= i < self.sections@.len() ==> #[trigger] self.sections@[i].wf()
    }

    pub fn new(filename: &str) -> (r: IniFile)
        ensures
            r.wf(),
            r.filename@ == filename@,
            r@ == Map::<Seq<char>, SectionView>::empty(),
            r.sections@.len() == 0,
    {
        IniFile { filename: filename.to_owned(), sections: Vec::new() }
    }

    /// The position of the section named `name`, if there is one.
    fn find_section(&self, name: &String) -> (r: Option<usize>)
        ensures
            match r {
                Some(i) => i < self.sections@.len() && self.sections@[i as int].name@ == name@,
                None => forall|i: int| 0 <= i < self.sections@.len() ==> self.sections@[i].name@ != name@,
            },
    {
        let mut i: usize = 0;
        while i < self.sections.len()
            invariant
                i <= self.sections@.len(),
                forall|j: int| 0 <= j < i ==> self.sections@[j].name@ != name@,
            decreases self.sections@.len() - i,
        {
            if self.sections[i].name == *name {
                return Some(i);
            }
            i += 1;
        }
        None
    }

    /// The section named `name`, if there is one.
    pub fn peek_section(&self, name: &str) -> (r: Option<&IniSection>)
        requires
            self.wf(),
        ensures
            r is Some <==> self@.contains_key(name@),
            r matches Some(sec) ==> sec.wf() && sec.name@ == name@ && sec@ == self@[name@],
    {
        let n = name.to_owned();
        match self.find_section(&n) {
            Some(i) => {
                proof {
                    lemma_section_map_index(self.sections@, i as int);
                }
                Some(&self.sections[i])
            },
            None => {
                proof {
                    lemma_section_map_absent(self.sections@, name@);
                }
                None
            },
        }
    }

    /// The section named `name`, open to change, if there is one.
    pub fn get_section(&mut self, name: &str) -> (r: Option<&mut IniSection>)
        requires
            old(self).wf(),
        ensures
            r is Some <==> old(self)@.contains_key(name@),
            r is None ==> *final(self) == *old(self),
            r matches Some(sec) ==> sec.wf() && sec.name@ == name@ && sec@ == old(self)@[name@]
                && final(self).sections@ == old(self).sections@.update(
                name_position(old(self).sections@, name@),
                *final(sec),
            ),
            final(self).filename == old(self).filename,
    {
        let n = name.to_owned();
        match self.find_section(&n) {
            Some(i) => {
                proof {
                    lemma_section_map_index(self.sections@, i as int);
                }
                Some(&mut self.sections[i])
            },
            None => {
                proof {
                    lemma_section_map_absent(self.sections@, name@);
                }
                None
            },
        }
    }

    /// Some section that holds `key`, with the value it has there, if any section holds it.
    /// Sections are searched in the order in which they were first added.
    pub fn peek(&self, key: &str) -> (r: Option<(&IniSection, &str)>)
        requires
            self.wf(),
        ensures
            r is Some <==> some_section_holds(self@, key@),
            r matches Some((sec, v)) ==> self@.contains_key(sec.name@) && self@[sec.name@] == sec@
                && sec@.entries.contains_key(key@) && v@ == sec@.entries[key@],
    {
        let mut i: usize = 0;
        while i < self.sections.len()
            invariant
                self.wf(),
                i <= self.sections@.len(),
                forall|j: int| 0 <= j < i ==> !(#[trigger] self.sections@[j])@.entries.contains_key(key@),
            decreases self.sections@.len() - i,
        {
            proof {
                lemma_section_map_index(self.sections@, i as int);
            }
            match self.sections[i].peek_value(key) {
                Some(v) => {
                    assert(self@[self.sections@[i as int].name@].entries.contains_key(key@));
                    return Some((&self.sections[i], v));
                },
                None => {},
            }
            i += 1;
        }
        proof {
            assert forall|n: Seq<char>| #[trigger] self@.contains_key(n) implies !self@[n].entries.contains_key(key@) by {
                lemma_section_map_holder(self.sections@, n);
            }
        }
        None
    }

    /// The value under `key` in some section that holds it, if any does.
    pub fn peek_value(&self, key: &str) -> (r: Option<&str>)
        requires
            self.wf(),
        ensures
            r is Some <==> some_section_holds(self@, key@),
            r matches Some(v) ==> some_section_gives(self@, key@, v@),
    {
        match self.peek(key) {
            Some((sec, v)) => Some(v),
            None => None,
        }
    }

    /// Some entry with key `key`, open to change, if any section holds one.
    pub fn get_entry(&mut self, key: &str) -> (r: Option<&mut IniEntry>)
        requires
            old(self).wf(),
        ensures
            r is Some <==> some_section_holds(old(self)@, key@),
            r is None ==> *final(self) == *old(self),
            r matches Some(e) ==> e.key@ == key@ && some_section_gives(old(self)@, key@, e.value@)
                && entry_changed_in(old(self).sections@, final(self).sections@, first_holder(old(self).sections@, key@), key@, *final(e)),
            final(self).filename == old(self).filename,
    {
        let mut i: usize = 0;
        while i < self.sections.len()
            invariant
                self.wf(),
                *self == *old(self),
                i <= self.sections@.len(),
                forall|j: int| 0 <= j < i ==> !(#[trigger] self.sections@[j])@.entries.contains_key(key@),
                holder_from(self.sections@, key@, i as int) == first_holder(self.sections@, key@),
            decreases self.sections@.len() - i,
        {
            proof {
                lemma_section_map_index(self.sections@, i as int);
            }
            if self.sections[i].peek_entry(key).is_some() {
                assert(self@[self.sections@[i as int].name@].entries.contains_key(key@));
                return self.sections[i].get_entry(key);
            }
            i += 1;
        }
        proof {
            assert forall|n: Seq<char>| #[trigger] self@.contains_key(n) implies !self@[n].entries.contains_key(key@) by {
                lemma_section_map_holder(self.sections@, n);
            }
        }
        None
    }

    /// Sets `key = value` in the section named `section`, replacing the value the key
    /// had there; a section of that name is created where there is none.
    pub fn set_entry(&mut self, section: &str, key: &str, value: &str)
        requires
            old(self).wf(),
        ensures
            final(self).wf(),
            final(self).filename == old(self).filename,
            final(self)@ == old(self)@.insert(
                section@,
                if old(self)@.contains_key(section@) {
                    old(self)@[section@].with_entry(key@, value@)
                } else {
                    (SectionView { name: section@, entries: Map::empty(), is_default: false }).with_entry(key@, value@)
                },
            ),
    {
        let n = section.to_owned();
        match self.find_section(&n) {
            Some(i) => {
                proof {
                    lemma_section_map_index(self.sections@, i as int);
                }
                let ghost old_sections = self.sections@;
                self.sections[i].create_entry(key, value);
                proof {
                    lemma_section_map_update(old_sections, i as int, self.sections@[i as int]);
                    assert(self.sections@ =~= old_sections.update(i as int, self.sections@[i as int]));
                }
            },
            None => {
                proof {
                    lemma_section_map_absent(self.sections@, section@);
                }
                let mut sec = IniSection::new(section);
                sec.create_entry(key, value);
                self.add_section(sec);
            },
        }
    }

    /// Adds `section` under its name, replacing a section of the same name and all its entries.
    pub fn add_section(&mut self, section: IniSection)
        requires
            old(self).wf(),
            section.wf(),
        ensures
            final(self).wf(),
            final(self)@ == old(self)@.insert(section.name@, section@),
            final(self).filename == old(self).filename,
    {
        match self.find_section(&section.name) {
            Some(i) => {
                proof {
                    lemma_section_map_update(self.sections@, i as int, section);
                }
                self.sections.set(i, section);
            },
            None => {
                let ghost old_sections = self.sections@;
                self.sections.push(section);
                proof {
                    assert(self.sections@.drop_last() =~= old_sections);
                }
            },
        }
    }

    /// The position of the last section named `name`, if there is one.
    fn find_last_section(&self, name: &String) -> (r: Option<usize>)
        ensures
            named_entries_text(self.sections@, name@) == match r {
                Some(i) => entries_text(self.sections@[i as int].entries@),
                None => Seq::<char>::empty(),
            },
            r matches Some(i) ==> i < self.sections@.len(),
    {
        let mut i: usize = self.sections.len();
        assert(self.sections@.subrange(0, i as int) =~= self.sections@);
        while i > 0
            invariant
                i <= self.sections@.len(),
                named_entries_text(self.sections@, name@) == named_entries_text(
                    self.sections@.subrange(0, i as int),
                    name@,
                ),
            decreases i,
        {
            let ghost ss = self.sections@.subrange(0, i as int);
            assert(ss.drop_last() =~= self.sections@.subrange(0, i - 1));
            if self.sections[i - 1].name == *name {
                return Some(i - 1);
            }
            i -= 1;
        }
        None
    }

    /// The document as INI text: the entries of the default section first, unprefixed,
    /// then each other section as a blank line, its `[name]` header and its entries,
    /// one `key = value` line each.  Sections without entries get a header only where
    /// `include_empty_sections` is set.
    pub fn to_ini_string(&self, include_empty_sections: bool) -> (r: String)
        ensures
            r@ == ini_text(self.sections@, include_empty_sections),
    {
        let mut out = String::new();
        let default_name_string = String::from_str("<default>");
        proof {
            reveal_strlit("<default>");
            assert(default_name_string@ =~= default_name());
        }
        if let Some(d) = self.find_last_section(&default_name_string) {
            write_entries(&mut out, &self.sections[d]);
        }
        let ghost head = out@;
        let mut i: usize = 0;
        while i < self.sections.len()
            invariant
                i <= self.sections@.len(),
                out@ == head + sections_text(self.sections@.subrange(0, i as int), include_empty_sections),
            decreases self.sections@.len() - i,
        {
            let sec = &self.sections[i];
            let ghost before = out@;
            if !sec.is_default && (include_empty_sections || sec.entries.len() > 0) {
                out.append("\n[");
                out.append(sec.name.as_str());
                out.append("]\n");
                write_entries(&mut out, sec);
                proof {
                    reveal_strlit("\n[");
                    reveal_strlit("]\n");
                }
            }
            proof {
                let ss = self.sections@.subrange(0, i + 1);
                assert(ss.drop_last() =~= self.sections@.subrange(0, i as int));
                assert(ss.last() == self.sections@[i as int]);
                assert(out@ =~= head + sections_text(ss, include_empty_sections));
            }
            i += 1;
        }
        assert(self.sections@.subrange(0, i as int) =~= self.sections@);
        out
    }
}

} // verus!
