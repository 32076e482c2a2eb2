use pdfscan::walker::{base_name_exec, filter_candidates, is_candidate_exec};

#[test]
fn plain_document_name_is_candidate() {
    assert!(is_candidate_exec("a.pdf"));
}

#[test]
fn nested_path_is_candidate() {
    assert!(is_candidate_exec("dir/sub/report.pdf"));
}

#[test]
fn uppercase_extension_is_skipped() {
    // The filter matches the extension case-sensitively, so a
    // differently-cased extension is not a candidate.
    assert!(!is_candidate_exec("a.PDF"));
    assert!(!is_candidate_exec("a.Pdf"));
}

#[test]
fn other_extensions_are_skipped() {
    assert!(!is_candidate_exec("a.txt"));
    assert!(!is_candidate_exec("a.pdfx"));
}

#[test]
fn hidden_file_without_stem_is_skipped() {
    // ".pdf" has no stem before the dot, so it has no extension.
    assert!(!is_candidate_exec(".pdf"));
    assert!(is_candidate_exec(".a.pdf"));
}

#[test]
fn name_without_dot_is_skipped() {
    assert!(!is_candidate_exec("pdf"));
    assert!(!is_candidate_exec("dir/pdf"));
}

#[test]
fn double_extension_uses_last() {
    assert!(is_candidate_exec("a.tar.pdf"));
    assert!(!is_candidate_exec("a.pdf.txt"));
}

#[test]
fn directory_part_does_not_confuse_filter() {
    assert!(!is_candidate_exec("some.pdf/readme.txt"));
}

#[test]
fn base_name_takes_last_segment() {
    assert_eq!(base_name_exec("dir/sub/report.pdf"), "report.pdf");
    assert_eq!(base_name_exec("report.pdf"), "report.pdf");
    assert_eq!(base_name_exec("a/b/"), "");
}

#[test]
fn filter_keeps_candidates_in_order() {
    let paths = vec![
        String::from("x/a.pdf"),
        String::from("x/b.txt"),
        String::from("y/c.pdf"),
        String::from("y/d.PDF"),
    ];
    let kept = filter_candidates(&paths);
    assert_eq!(kept, vec![String::from("x/a.pdf"), String::from("y/c.pdf")]);
}

#[test]
fn repeated_filter_runs_agree() {
    // The same entries, in whatever order a second walk enumerates them,
    // give the same set of candidates.
    let first = vec![String::from("a.pdf"), String::from("b.pdf"), String::from("c.txt")];
    let second = vec![String::from("b.pdf"), String::from("c.txt"), String::from("a.pdf")];
    let mut kept1 = filter_candidates(&first);
    let mut kept2 = filter_candidates(&second);
    kept1.sort();
    kept2.sort();
    assert_eq!(kept1, kept2);
}
