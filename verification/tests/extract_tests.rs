use pdfscan::results::{process_extracted, ExtractionError};

/// A small but complete document whose page shows its text split across
/// several text-showing operators, so the phrase never appears contiguously
/// in the raw bytes and can only be found in the extracted text.
fn small_pdf(segments: &[&str]) -> Vec<u8> {
    let mut stream = String::from("BT /F1 12 Tf 72 720 Td ");
    for segment in segments {
        stream.push_str(&format!("({}) Tj ", segment));
    }
    stream.push_str("ET");
    let objects = vec![
        String::from("<< /Type /Catalog /Pages 2 0 R >>"),
        String::from("<< /Type /Pages /Kids [3 0 R] /Count 1 >>"),
        String::from(
            "<< /Type /Page /Parent 2 0 R /MediaBox [0 0 612 792] /Contents 4 0 R \
             /Resources << /Font << /F1 5 0 R >> >> >>",
        ),
        format!("<< /Length {} >>\nstream\n{}\nendstream", stream.len(), stream),
        String::from("<< /Type /Font /Subtype /Type1 /BaseFont /Helvetica >>"),
    ];
    let mut pdf = String::from("%PDF-1.4\n");
    let mut offsets = Vec::new();
    for (i, object) in objects.iter().enumerate() {
        offsets.push(pdf.len());
        pdf.push_str(&format!("{} 0 obj\n{}\nendobj\n", i + 1, object));
    }
    let xref_position = pdf.len();
    pdf.push_str(&format!("xref\n0 {}\n0000000000 65535 f \n", objects.len() + 1));
    for offset in &offsets {
        pdf.push_str(&format!("{:010} 00000 n \n", offset));
    }
    pdf.push_str(&format!(
        "trailer\n<< /Size {} /Root 1 0 R >>\nstartxref\n{}\n%%EOF",
        objects.len() + 1,
        xref_position
    ));
    pdf.into_bytes()
}

/// The extractor as the tool feeds it to the library: a failed
/// extraction becomes this one file's error.
fn extract(bytes: &[u8]) -> Result<String, ExtractionError> {
    pdf_extract::extract_text_from_mem(bytes).map_err(|_| ExtractionError)
}

#[test]
fn extracted_text_joins_the_segments() {
    let bytes = small_pdf(&["Hel", "lo W", "orld"]);
    // The phrase never stands contiguously in the raw bytes.
    let raw = String::from_utf8_lossy(&bytes).to_string();
    assert!(!raw.contains("Hello"));
    let text = extract(&bytes).unwrap();
    assert!(text.contains("Hello World"));
}

#[test]
fn pipeline_finds_phrase_in_extracted_text() {
    let bytes = small_pdf(&["Hel", "lo W", "orld"]);
    let outcome = extract(&bytes);
    let result = process_extracted(
        &String::from("dir/sample.pdf"),
        outcome,
        &String::from("hello"),
        false,
    );
    let s = result.unwrap();
    assert_eq!(s.file_path, "dir/sample.pdf");
    assert_eq!(s.file_name, "sample.pdf");
    assert!(s.match_count >= 1);
    assert!(s.matches[0].text.to_lowercase().contains("hello world"));
}

#[test]
fn pipeline_misses_absent_phrase() {
    let bytes = small_pdf(&["Hel", "lo W", "orld"]);
    let outcome = extract(&bytes);
    let result = process_extracted(
        &String::from("dir/sample.pdf"),
        outcome,
        &String::from("goodbye"),
        false,
    );
    assert!(result.is_none());
}

#[test]
fn unparseable_bytes_fail_extraction() {
    let bytes = b"this is not a document at all".to_vec();
    assert!(extract(&bytes).is_err());
}

#[test]
fn match_all_ignores_the_extraction_outcome() {
    let result = process_extracted(
        &String::from("x/y.pdf"),
        Err(ExtractionError),
        &String::from(""),
        false,
    );
    let s = result.unwrap();
    assert_eq!(s.match_count, 1);
    assert_eq!(s.matches[0].text, "Found occurrence in 'y.pdf'");
}
