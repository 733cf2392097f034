//! The dictionary's value types: parsed lines and indexed candidates.

use vstd::prelude::*;

verus! {

/// Which dictionary tier a candidate came from.
#[derive(Debug, Clone, Copy, PartialEq, Eq, Hash, Structural)]
pub enum DictionarySource {
    User,
    System,
}

/// One conversion text for a reading, tagged with its tier.
#[derive(Debug, Clone, PartialEq, Eq, Hash)]
pub struct Candidate {
    pub text: String,
    pub source: DictionarySource,
}

impl View for Candidate {
    type V = (Seq<char>, DictionarySource);

    open spec fn view(&self) -> (Seq<char>, DictionarySource) {
        (self.text@, self.source)
    }
}

impl Candidate {
    pub fn new(text: String, source: DictionarySource) -> (c: Self)
        ensures
            c@ == (text@, source),
    {
        Self { text, source }
    }

    /// A copy of this candidate with the same text and tier.
    pub fn duplicate(&self) -> (c: Self)
        ensures
            c@ == self@,
    {
        Candidate { text: self.text.clone(), source: self.source }
    }
}

/// One dictionary line: a reading (headword) and its candidate texts, in
/// order. `is_okuri_ari` marks readings of the form `<hiragana><a-z>`.
#[derive(Debug, Clone, PartialEq, Eq)]
pub struct ParsedEntry {
    pub reading: String,
    pub candidates: Vec<String>,
    pub is_okuri_ari: bool,
}

/// The mathematical value of a parsed line.
pub struct EntryModel {
    pub reading: Seq<char>,
    pub candidates: Seq<Seq<char>>,
    pub is_okuri_ari: bool,
}

impl View for ParsedEntry {
    type V = EntryModel;

    open spec fn view(&self) -> EntryModel {
        EntryModel {
            reading: self.reading@,
            candidates: self.candidates@.map_values(|s: String| s@),
            is_okuri_ari: self.is_okuri_ari,
        }
    }
}

impl ParsedEntry {
    pub fn new(reading: String, candidates: Vec<String>) -> (e: Self)
        ensures
            e.reading@ == reading@,
            e.candidates@ == candidates@,
            !e.is_okuri_ari,
    {
        Self { reading, candidates, is_okuri_ari: false }
    }

    pub fn with_okuri(reading: String, candidates: Vec<String>, is_okuri_ari: bool) -> (e: Self)
        ensures
            e.reading@ == reading@,
            e.candidates@ == candidates@,
            e.is_okuri_ari == is_okuri_ari,
    {
        Self { reading, candidates, is_okuri_ari }
    }
}

} // verus!
