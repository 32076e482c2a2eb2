//! The search panel: the configuration a user assembles before a search.

use crate::coordinator::SearchConfig;
use crate::matching::{find_matches, find_spans, spans_view, MatchResult};
use crate::text::clone_strings;
use vstd::prelude::*;
use vstd::string::*;

verus! {

/// The state of the search panel: the phrase to look for, the case rule,
/// the directory roots to search, and whether to bundle the matching
/// files into an archive once the search is done.
pub struct SearchPanel {
    pub search_query: String,
    pub case_sensitive: bool,
    pub search_paths: Vec<String>,
    pub create_zip: bool,
}

impl SearchPanel {
    /// A fresh panel: empty phrase, case-insensitive matching, no roots,
    /// no archive.
    pub fn new() -> (r: Self)
        ensures
            r.search_query@ == Seq::<char>::empty(),
            r.case_sensitive == false,
            r.search_paths@ == Seq::<String>::empty(),
            r.create_zip == false,
    {
        SearchPanel {
            search_query: String::new(),
            case_sensitive: false,
            search_paths: Vec::new(),
            create_zip: false,
        }
    }

    /// The immutable configuration of one search run, as the panel has
    /// it: the phrase, the case rule, the roots, and whether to build
    /// the archive afterwards.
    pub fn to_config(&self) -> (r: SearchConfig)
        ensures
            r.phrase@ == self.search_query@,
            r.case_sensitive == self.case_sensitive,
            r.roots@ == self.search_paths@,
            r.build_archive == self.create_zip,
    {
        SearchConfig {
            phrase: self.search_query.clone(),
            case_sensitive: self.case_sensitive,
            roots: clone_strings(&self.search_paths),
            build_archive: self.create_zip,
        }
    }

    /// All non-overlapping matches of the configured phrase in `text`,
    /// left to right, under the configured case rule.
    pub fn search_in_text(&self, text: &str) -> (r: Vec<MatchResult>)
        requires
            self.search_query@.len() > 0,
        ensures
            spans_view(r@) == find_spans(text@, self.search_query@, self.case_sensitive),
    {
        find_matches(text, self.search_query.as_str(), self.case_sensitive)
    }
}

} // verus!
