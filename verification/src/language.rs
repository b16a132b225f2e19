//! Languages, their grammars, and the registry that finds a language by name.

use crate::parser::{built_under, is_built_under, parser_takes, taken_by_parser, text_between};
use std::sync::Arc;
use vstd::prelude::*;

verus! {

/// How a grammar finds text of other languages inside its own trees.
#[derive(Debug)]
pub struct InjectionConfig {
    /// The patterns; each match is a stretch of text in another language.
    pub query: tree_sitter::Query,
    /// The capture that marks the text to parse.
    pub content_capture_ix: u32,
    /// The capture whose text names the language, where a pattern has one.
    pub language_capture_ix: Option<u32>,
    /// For each pattern, the language that it names itself, if any.
    pub languages_by_pattern_ix: Vec<Option<String>>,
}

/// What tree-sitter needs to parse a language, and how the language embeds
/// others.
#[derive(Debug)]
pub struct Grammar {
    pub ts_language: tree_sitter::Language,
    pub injection_config: Option<InjectionConfig>,
}

/// A language by name, with the grammar that parses it.
#[derive(Debug)]
pub struct LanguageDef {
    pub name: String,
    /// `None` while the grammar is not loaded.
    pub grammar: Option<Arc<Grammar>>,
}

/// The languages that embedded text can be parsed with.
#[derive(Debug)]
pub struct LanguageRegistry {
    pub languages: Vec<Arc<LanguageDef>>,
}

/// The value behind a handle.
pub open spec fn held<T>(handle: Arc<T>) -> T {
    *handle
}

/// Calls `Arc::clone` of std, which hands out another handle to the same
/// value.
#[verifier::external_body]
pub(crate) fn share<T>(handle: &Arc<T>) -> (other: Arc<T>)
    ensures
        other == *handle,
{
    Arc::clone(handle)
}

/// Whether two byte strings are the same.
pub fn bytes_equal(a: &[u8], b: &[u8]) -> (same: bool)
    ensures
        same == (a@ == b@),
{
    if a.len() != b.len() {
        return false;
    }
    let mut i: usize = 0;
    while i < a.len()
        invariant
            a.len() == b.len(),
            i <= a.len(),
            forall|k: int| 0 <= k < i ==> a@[k] == b@[k],
        decreases a.len() - i,
    {
        if a[i] != b[i] {
            return false;
        }
        i += 1;
    }
    assert(a@ =~= b@);
    true
}

/// The first of `languages` from index `from` on whose name, in UTF-8, is
/// `name`.
pub open spec fn first_named(languages: Seq<Arc<LanguageDef>>, name: Seq<u8>, from: int) -> Option<
    Arc<LanguageDef>,
>
    decreases languages.len() - from,
{
    if from < 0 || from >= languages.len() {
        None
    } else if vstd::utf8::encode_utf8(languages[from].name@) == name {
        Some(languages[from])
    } else {
        first_named(languages, name, from + 1)
    }
}

impl LanguageRegistry {
    /// A registry without languages.
    pub fn new() -> (registry: Self)
        ensures
            registry.languages@ == Seq::<Arc<LanguageDef>>::empty(),
    {
        LanguageRegistry { languages: Vec::new() }
    }

    /// Adds a language behind those that are already there.
    pub fn add(&mut self, language: Arc<LanguageDef>)
        ensures
            final(self).languages@ == old(self).languages@.push(language),
    {
        self.languages.push(language);
    }

    /// The language that `get_language` finds for `name`.
    pub open spec fn lookup(self, name: Seq<u8>) -> Option<Arc<LanguageDef>> {
        first_named(self.languages@, name, 0)
    }

    /// Finds the language of the given name: the first one added under it.
    pub fn get_language(&self, name: &[u8]) -> (found: Option<Arc<LanguageDef>>)
        ensures
            found == self.lookup(name@),
    {
        let mut i: usize = 0;
        while i < self.languages.len()
            invariant
                i <= self.languages.len(),
                first_named(self.languages@, name@, 0) == first_named(
                    self.languages@,
                    name@,
                    i as int,
                ),
            decreases self.languages.len() - i,
        {
            if bytes_equal(self.languages[i].name.as_str().as_bytes(), name) {
                return Some(share(&self.languages[i]));
            }
            i += 1;
        }
        None
    }
}

/// The name that a match of pattern `pattern_index` gives to its language:
/// the name that the pattern sets, else the text under `language_node`.
pub open spec fn injection_language_name(
    config: InjectionConfig,
    pattern_index: usize,
    language_node: Option<(usize, usize)>,
    text: Seq<u8>,
) -> Option<Seq<u8>> {
    if pattern_index < config.languages_by_pattern_ix.len()
        && config.languages_by_pattern_ix[pattern_index as int] is Some {
        Some(vstd::utf8::encode_utf8(config.languages_by_pattern_ix[pattern_index as int].unwrap()@))
    } else {
        match language_node {
            Some((start, end)) => Some(
                if start <= end && end <= text.len() {
                    text.subrange(start as int, end as int)
                } else {
                    Seq::<u8>::empty()
                },
            ),
            None => None,
        }
    }
}

impl Grammar {
    /// Whether `tree` was built under this grammar. Only such a tree can
    /// serve a parse under this grammar as its starting point.
    pub fn has_built(&self, tree: &tree_sitter::Tree) -> (built: bool)
        ensures
            built == built_under(*tree, self.ts_language),
    {
        is_built_under(tree, &self.ts_language)
    }

    /// Whether the parser takes this grammar.
    pub fn is_taken_by_parser(&self) -> (taken: bool)
        ensures
            taken == taken_by_parser(self.ts_language),
    {
        parser_takes(&self.ts_language)
    }
}

impl InjectionConfig {
    /// Looks up, in `registry`, the language that a match of pattern
    /// `pattern_index` asks for; `language_node` is the stretch of `text`
    /// under the match's language capture, where it has one.
    pub fn language_for_match(
        &self,
        pattern_index: usize,
        language_node: Option<(usize, usize)>,
        text: &Vec<u8>,
        registry: &LanguageRegistry,
    ) -> (found: Option<Arc<LanguageDef>>)
        ensures
            found == match injection_language_name(*self, pattern_index, language_node, text@) {
                Some(name) => registry.lookup(name),
                None => None,
            },
    {
        if pattern_index < self.languages_by_pattern_ix.len() {
            if let Some(name) = &self.languages_by_pattern_ix[pattern_index] {
                return registry.get_language(name.as_str().as_bytes());
            }
        }
        match language_node {
            Some((start, end)) => registry.get_language(text_between(text, start, end)),
            None => None,
        }
    }
}

} // verus!
