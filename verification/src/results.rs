//! Per-file search results and the per-file pipeline step.
//!
//! One `SearchResult` stands for one file that the search reports.  With
//! a non-empty phrase a file is reported exactly when its extracted text
//! matches at least once; with an empty phrase every candidate file is
//! reported with a single placeholder span (the match-all policy).

use crate::matching::{find_matches, find_spans, spans_view, MatchResult, SpanModel};
use crate::text::fold_case;
use crate::walker::{base_name, base_name_exec};
use vstd::prelude::*;
use vstd::string::*;

verus! {

/// The library's extraction error: this document's text could not be
/// read.  Extraction runs outside the library, under a fault boundary
/// that turns a failing or panicking extractor into this value for the
/// one file concerned; which documents fail is the extractor's decision,
/// so nothing is assumed about it here.
#[derive(Clone, Copy, PartialEq, Eq, Structural, Debug)]
pub struct ExtractionError;

/// One file that the search reports: its path, its base name, and every
/// match found in it, left to right.
pub struct SearchResult {
    pub file_path: String,
    pub file_name: String,
    pub match_count: usize,
    pub matches: Vec<MatchResult>,
}

/// The mathematical model of a `SearchResult`.
#[verifier::ext_equal]
pub ghost struct ResultModel {
    pub file_path: Seq<char>,
    pub file_name: Seq<char>,
    pub matches: Seq<SpanModel>,
}

impl View for SearchResult {
    type V = ResultModel;

    open spec fn view(&self) -> ResultModel {
        ResultModel {
            file_path: self.file_path@,
            file_name: self.file_name@,
            matches: spans_view(self.matches@),
        }
    }
}

impl SearchResult {
    /// A well-formed result: the stored count equals the number of
    /// matches, a reported file has at least one match, and the stored
    /// name is the base name of the path.
    pub open spec fn wf(self) -> bool {
        &&& self.match_count == self.matches@.len()
        &&& self.matches@.len() > 0
        &&& self.file_name@ == base_name(self.file_path@)
    }
}

/// The models of a sequence of results.
pub open spec fn models_of(rs: Seq<SearchResult>) -> Seq<ResultModel> {
    rs.map_values(|r: SearchResult| r@)
}

/// The placeholder context text reported for a file under the match-all
/// policy.
pub open spec fn placeholder_text(name: Seq<char>) -> Seq<char> {
    "Found occurrence in '"@ + name + "'"@
}

/// The placeholder span reported for a file under the match-all policy.
pub open spec fn placeholder_span(name: Seq<char>) -> SpanModel {
    SpanModel { text: placeholder_text(name), position: 0 }
}

/// What a candidate file reports under the match-all policy: itself, with
/// one placeholder span.
pub open spec fn placeholder_result(path: Seq<char>) -> ResultModel {
    ResultModel {
        file_path: path,
        file_name: base_name(path),
        matches: seq![placeholder_span(base_name(path))],
    }
}

/// The model of an optional result.
pub open spec fn result_view(r: Option<SearchResult>) -> Option<ResultModel> {
    match r {
        Some(s) => Some(s@),
        None => None,
    }
}

/// The text an extraction outcome carries, if it succeeded.
pub open spec fn extraction_view(e: Result<String, ExtractionError>) -> Option<Seq<char>> {
    match e {
        Ok(t) => Some(t@),
        Err(_) => None,
    }
}

/// What one candidate file contributes to the search: with an empty
/// phrase, its placeholder result; otherwise, nothing when extraction
/// failed or no match was found, and else the file with all its matches.
pub open spec fn process_model(
    path: Seq<char>,
    extracted: Option<Seq<char>>,
    query: Seq<char>,
    case_sensitive: bool,
) -> Option<ResultModel> {
    if query.len() == 0 {
        Some(placeholder_result(path))
    } else {
        match extracted {
            None => None,
            Some(t) => {
                let spans = find_spans(t, query, case_sensitive);
                if spans.len() == 0 {
                    None
                } else {
                    Some(ResultModel { file_path: path, file_name: base_name(path), matches: spans })
                }
            },
        }
    }
}

/// The match-all policy: with an empty phrase a candidate file is always
/// reported, with exactly one placeholder span, whatever its extraction
/// outcome was.
pub proof fn lemma_match_all_policy(
    path: Seq<char>,
    extracted: Option<Seq<char>>,
    case_sensitive: bool,
)
    ensures
        process_model(path, extracted, Seq::<char>::empty(), case_sensitive) == Some(
            placeholder_result(path),
        ),
        placeholder_result(path).matches.len() == 1,
{
}

/// Build the placeholder result for a candidate file.
fn placeholder_exec(path: &String) -> (r: SearchResult)
    ensures
        r@ == placeholder_result(path@),
        r.wf(),
{
    let name = base_name_exec(path.as_str());
    let text = String::from_str("Found occurrence in '").concat(name.as_str()).concat("'");
    proof {
        assert(text@ =~= placeholder_text(name@));
    }
    let m = MatchResult { text, position: 0 };
    let matches = vec![m];
    proof {
        assert(spans_view(matches@) =~= seq![placeholder_span(name@)]);
    }
    let r = SearchResult {
        file_path: path.clone(),
        file_name: name,
        match_count: 1,
        matches,
    };
    proof {
        assert(r@ =~= placeholder_result(path@));
    }
    r
}

/// The per-file pipeline step after extraction: decide what this file
/// contributes, from its path, its extraction outcome and the phrase.
pub fn process_extracted(
    path: &String,
    extracted: Result<String, ExtractionError>,
    query: &String,
    case_sensitive: bool,
) -> (r: Option<SearchResult>)
    ensures
        result_view(r) == process_model(path@, extraction_view(extracted), query@, case_sensitive),
        r matches Some(s) ==> s.wf(),
{
    if query.as_str().is_empty() {
        Some(placeholder_exec(path))
    } else {
        match extracted {
            Err(_) => None,
            Ok(t) => {
                let ms = find_matches(t.as_str(), query.as_str(), case_sensitive);
                if ms.len() == 0 {
                    None
                } else {
                    let r = SearchResult {
                        file_path: path.clone(),
                        file_name: base_name_exec(path.as_str()),
                        match_count: ms.len(),
                        matches: ms,
                    };
                    proof {
                        assert(r@ =~= ResultModel {
                            file_path: path@,
                            file_name: base_name(path@),
                            matches: find_spans(t@, query@, case_sensitive),
                        });
                    }
                    Some(r)
                }
            },
        }
    }
}

} // verus!
