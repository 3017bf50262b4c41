//! The badge's wire-code lookup tables: immutable mappings from fixed-width
//! hex groups (or concatenations of two or three groups) to displayed text.

use vstd::prelude::*;

verus! {

/// One table entry: a hex wire code and the text it stands for.
#[derive(Debug)]
pub struct CodeEntry {
    pub code: String,
    pub text: String,
}

/// Mathematical model of a table entry.
pub struct CodeEntryView {
    pub code: Seq<char>,
    pub text: Seq<char>,
}

impl View for CodeEntry {
    type V = CodeEntryView;

    open spec fn view(&self) -> CodeEntryView {
        CodeEntryView { code: self.code@, text: self.text@ }
    }
}

/// The model of a whole table: its entries in order.
pub open spec fn entries_view(v: Seq<CodeEntry>) -> Seq<CodeEntryView> {
    v.map_values(|e: CodeEntry| e@)
}

/// First-match lookup of `code` among `entries`.
pub open spec fn table_lookup(entries: Seq<CodeEntryView>, code: Seq<char>) -> Option<Seq<char>>
    decreases entries.len(),
{
    if entries.len() == 0 {
        None
    } else if entries[0].code == code {
        Some(entries[0].text)
    } else {
        table_lookup(entries.drop_first(), code)
    }
}

proof fn lemma_table_lookup_at(entries: Seq<CodeEntryView>, code: Seq<char>, i: int)
    requires
        0 <= i < entries.len(),
        entries[i].code == code,
        forall|t: int| 0 <= t < i ==> entries[t].code != code,
    ensures
        table_lookup(entries, code) == Some(entries[i].text),
    decreases i,
{
    if i > 0 {
        lemma_table_lookup_at(entries.drop_first(), code, i - 1);
    }
}

proof fn lemma_table_lookup_none(entries: Seq<CodeEntryView>, code: Seq<char>)
    requires
        forall|t: int| 0 <= t < entries.len() ==> entries[t].code != code,
    ensures
        table_lookup(entries, code) is None,
    decreases entries.len(),
{
    if entries.len() > 0 {
        lemma_table_lookup_none(entries.drop_first(), code);
    }
}

/// Linear scan through `entries` for `code`, first match wins.
fn scan_entries(entries: &Vec<CodeEntry>, code: &String) -> (r: Option<String>)
    ensures
        match r {
            Some(t) => table_lookup(entries_view(entries@), code@) == Some(t@),
            None => table_lookup(entries_view(entries@), code@) is None,
        },
{
    let ghost ev = entries_view(entries@);
    let mut i: usize = 0;
    while i < entries.len()
        invariant
            0 <= i <= entries.len(),
            ev == entries_view(entries@),
            forall|t: int| 0 <= t < i ==> ev[t].code != code@,
        decreases entries.len() - i,
    {
        if entries[i].code == *code {
            let found = entries[i].text.clone();
            proof {
                lemma_table_lookup_at(ev, code@, i as int);
            }
            return Some(found);
        }
        i = i + 1;
    }
    proof {
        lemma_table_lookup_none(ev, code@);
    }
    None
}

/// The glyph table: each fixed-width hex group it knows maps to a single
/// displayed character.
#[derive(Debug)]
pub struct GlyphTable {
    pub entries: Vec<CodeEntry>,
}

impl GlyphTable {
    pub open spec fn wf(self) -> bool {
        forall|i: int|
            0 <= i < self.entries@.len() ==> (#[trigger] self.entries@[i])@.text.len() == 1
    }

    pub fn new() -> (t: GlyphTable)
        ensures
            t.wf(),
            entries_view(t.entries@).len() == 0,
    {
        GlyphTable { entries: Vec::new() }
    }

    /// Add a mapping from one hex group to a single character.
    pub fn insert(&mut self, code: String, glyph: String)
        requires
            old(self).wf(),
            glyph@.len() == 1,
        ensures
            final(self).wf(),
            entries_view(final(self).entries@) == entries_view(old(self).entries@).push(
                CodeEntryView { code: code@, text: glyph@ },
            ),
    {
        let ghost before = self.entries@;
        self.entries.push(CodeEntry { code, text: glyph });
        proof {
            assert(entries_view(self.entries@) =~= entries_view(before).push(
                self.entries@[before.len() as int]@,
            ));
        }
    }

    /// Resolve one hex group to its glyph, if the table knows it.
    pub fn lookup(&self, code: &String) -> (r: Option<String>)
        ensures
            match r {
                Some(t) => table_lookup(entries_view(self.entries@), code@) == Some(t@),
                None => table_lookup(entries_view(self.entries@), code@) is None,
            },
    {
        scan_entries(&self.entries, code)
    }
}

/// The keyword table: a hex group, or a concatenation of two or three
/// consecutive groups, maps to a multi-character symbol.
#[derive(Debug)]
pub struct KeywordTable {
    pub entries: Vec<CodeEntry>,
}

impl KeywordTable {
    pub fn new() -> (t: KeywordTable)
        ensures
            entries_view(t.entries@).len() == 0,
    {
        KeywordTable { entries: Vec::new() }
    }

    /// Add a mapping from a code (one, two or three concatenated groups) to
    /// its keyword text.
    pub fn insert(&mut self, code: String, keyword: String)
        ensures
            entries_view(final(self).entries@) == entries_view(old(self).entries@).push(
                CodeEntryView { code: code@, text: keyword@ },
            ),
    {
        let ghost before = self.entries@;
        self.entries.push(CodeEntry { code, text: keyword });
        proof {
            assert(entries_view(self.entries@) =~= entries_view(before).push(
                self.entries@[before.len() as int]@,
            ));
        }
    }

    /// Resolve a code to its keyword, if the table knows it.
    pub fn lookup(&self, code: &String) -> (r: Option<String>)
        ensures
            match r {
                Some(t) => table_lookup(entries_view(self.entries@), code@) == Some(t@),
                None => table_lookup(entries_view(self.entries@), code@) is None,
            },
    {
        scan_entries(&self.entries, code)
    }
}

} // verus!
