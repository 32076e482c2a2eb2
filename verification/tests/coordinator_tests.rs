use pdfscan::coordinator::{SearchConfig, SearchCoordinator, SearchPhase};
use pdfscan::results::ExtractionError;
use pdfscan::results::{process_extracted, SearchResult};

fn config_for(roots: Vec<String>, phrase: &str) -> SearchConfig {
    SearchConfig {
        phrase: String::from(phrase),
        case_sensitive: false,
        roots,
        build_archive: false,
    }
}

fn worker_result(path: &str, text: &str, phrase: &str) -> Option<SearchResult> {
    process_extracted(
        &String::from(path),
        Ok(String::from(text)),
        &String::from(phrase),
        false,
    )
}

#[test]
fn coordinator_runs_through_its_phases() {
    let config = config_for(vec![String::from("dirA"), String::from("dirB")], "x");
    let mut coordinator = SearchCoordinator::new(config);
    assert_eq!(coordinator.phase_now(), SearchPhase::Idle);
    coordinator.start();
    assert_eq!(coordinator.phase_now(), SearchPhase::Running);
    coordinator.submit(Vec::new());
    assert_eq!(coordinator.phase_now(), SearchPhase::Running);
    coordinator.submit(Vec::new());
    assert_eq!(coordinator.phase_now(), SearchPhase::Done);
    let results = coordinator.into_results();
    assert!(results.is_empty());
}

#[test]
fn coordinator_with_no_roots_is_done_at_start() {
    let config = config_for(Vec::new(), "x");
    let mut coordinator = SearchCoordinator::new(config);
    coordinator.start();
    assert_eq!(coordinator.phase_now(), SearchPhase::Done);
}

#[test]
fn two_roots_aggregate_to_the_matching_file_only() {
    // Root A holds a.pdf with "hello world"; root B holds b.pdf with
    // "goodbye".  Searching "hello" case-insensitively reports a.pdf
    // alone, with one span at offset 0 whose context is the whole text.
    let config = config_for(vec![String::from("dirA"), String::from("dirB")], "hello");
    let mut coordinator = SearchCoordinator::new(config);
    coordinator.start();

    let worker_a: Vec<SearchResult> =
        worker_result("dirA/a.pdf", "hello world", "hello").into_iter().collect();
    let worker_b: Vec<SearchResult> =
        worker_result("dirB/b.pdf", "goodbye", "hello").into_iter().collect();
    assert_eq!(worker_a.len(), 1);
    assert_eq!(worker_b.len(), 0);

    coordinator.submit(worker_a);
    coordinator.submit(worker_b);
    let results = coordinator.into_results();
    assert_eq!(results.len(), 1);
    assert_eq!(results[0].file_path, "dirA/a.pdf");
    assert_eq!(results[0].file_name, "a.pdf");
    assert_eq!(results[0].match_count, 1);
    assert_eq!(results[0].matches.len(), 1);
    assert_eq!(results[0].matches[0].position, 0);
    assert_eq!(results[0].matches[0].text, "hello world");
}

#[test]
fn empty_phrase_reports_every_candidate() {
    // With an empty phrase every candidate file is a match, carrying a
    // single placeholder span.
    let config = config_for(vec![String::from("dirA"), String::from("dirB")], "");
    let mut coordinator = SearchCoordinator::new(config);
    coordinator.start();

    let worker_a: Vec<SearchResult> =
        worker_result("dirA/a.pdf", "hello world", "").into_iter().collect();
    let worker_b: Vec<SearchResult> =
        worker_result("dirB/b.pdf", "goodbye", "").into_iter().collect();

    coordinator.submit(worker_a);
    coordinator.submit(worker_b);
    let mut results = coordinator.into_results();
    results.sort_by(|a, b| a.file_path.cmp(&b.file_path));
    assert_eq!(results.len(), 2);
    assert_eq!(results[0].file_path, "dirA/a.pdf");
    assert_eq!(results[0].matches.len(), 1);
    assert_eq!(results[0].matches[0].position, 0);
    assert_eq!(results[0].matches[0].text, "Found occurrence in 'a.pdf'");
    assert_eq!(results[1].file_path, "dirB/b.pdf");
    assert_eq!(results[1].matches.len(), 1);
    assert_eq!(results[1].matches[0].text, "Found occurrence in 'b.pdf'");
}

#[test]
fn aggregate_never_reports_a_path_twice() {
    // Two overlapping roots may both report the same file; the merge
    // keeps the first hand-off's result for that path.
    let config = config_for(vec![String::from("r1"), String::from("r2")], "aa");
    let mut coordinator = SearchCoordinator::new(config);
    coordinator.start();

    let first: Vec<SearchResult> =
        worker_result("shared/x.pdf", "aa aa", "aa").into_iter().collect();
    let second: Vec<SearchResult> =
        worker_result("shared/x.pdf", "aa", "aa").into_iter().collect();
    coordinator.submit(first);
    coordinator.submit(second);
    let results = coordinator.into_results();
    assert_eq!(results.len(), 1);
    assert_eq!(results[0].file_path, "shared/x.pdf");
    // The first hand-off found two occurrences; that result stood.
    assert_eq!(results[0].match_count, 2);
}

#[test]
fn completion_order_does_not_change_the_set() {
    let make_workers = || {
        let wa: Vec<SearchResult> =
            worker_result("a/a.pdf", "zzz needle", "needle").into_iter().collect();
        let wb: Vec<SearchResult> =
            worker_result("b/b.pdf", "needle here", "needle").into_iter().collect();
        (wa, wb)
    };

    let config1 = config_for(vec![String::from("a"), String::from("b")], "needle");
    let mut c1 = SearchCoordinator::new(config1);
    c1.start();
    let (wa, wb) = make_workers();
    c1.submit(wa);
    c1.submit(wb);
    let mut r1: Vec<String> = c1.into_results().into_iter().map(|r| r.file_path).collect();

    let config2 = config_for(vec![String::from("a"), String::from("b")], "needle");
    let mut c2 = SearchCoordinator::new(config2);
    c2.start();
    let (wa, wb) = make_workers();
    c2.submit(wb);
    c2.submit(wa);
    let mut r2: Vec<String> = c2.into_results().into_iter().map(|r| r.file_path).collect();

    r1.sort();
    r2.sort();
    assert_eq!(r1, r2);
}

#[test]
fn extraction_failure_excludes_the_file() {
    let r = process_extracted(
        &String::from("bad.pdf"),
        Err(ExtractionError),
        &String::from("hello"),
        false,
    );
    assert!(r.is_none());
}

#[test]
fn extraction_failure_with_empty_phrase_still_reports() {
    let r = process_extracted(
        &String::from("dir/bad.pdf"),
        Err(ExtractionError),
        &String::from(""),
        false,
    );
    let s = r.unwrap();
    assert_eq!(s.file_path, "dir/bad.pdf");
    assert_eq!(s.match_count, 1);
    assert_eq!(s.matches[0].text, "Found occurrence in 'bad.pdf'");
}

#[test]
fn no_occurrence_means_no_result() {
    let r = process_extracted(
        &String::from("a.pdf"),
        Ok(String::from("goodbye")),
        &String::from("hello"),
        false,
    );
    assert!(r.is_none());
}
