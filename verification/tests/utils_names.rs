use std::path::{Path, PathBuf};

use scanner_processor::error::ProcessorError;
use scanner_processor::utils::{
    counter_from_file_name, extract_counter, is_scan_file,
};

#[test]
fn test_extract_counter_valid() {
    let p = PathBuf::from("doc00488320260310093843.pdf");
    assert_eq!(extract_counter(p.to_str().unwrap()).unwrap(), 4883);
}

#[test]
fn test_extract_counter_second_file() {
    let p = PathBuf::from("doc00488420260310094018.pdf");
    assert_eq!(extract_counter(p.to_str().unwrap()).unwrap(), 4884);
}

#[test]
fn test_is_scan_file_valid() {
    assert!(is_scan_file(Path::new("doc00488320260310093843.pdf").to_str().unwrap()));
}

#[test]
fn test_is_scan_file_invalid() {
    assert!(!is_scan_file(Path::new("output_12345.pdf").to_str().unwrap()));
    assert!(!is_scan_file(Path::new("doc004883.txt").to_str().unwrap()));
}

#[test]
fn counter_is_read_from_the_file_name_of_a_full_path() {
    assert_eq!(extract_counter("/mnt/scanner/inbox/doc00488320260310093843.pdf").unwrap(), 4883);
}

#[test]
fn short_name_is_refused_with_its_length() {
    assert_eq!(
        extract_counter("/in/doc1.pdf"),
        Err(ProcessorError::FilenameParseError {
            filename: "doc1.pdf".to_string(),
            reason: "filename too short (need ≥9 chars, got 8)".to_string(),
        })
    );
    // the length counts bytes: "é" is two
    assert_eq!(
        counter_from_file_name("é.pdf"),
        Err(ProcessorError::FilenameParseError {
            filename: "é.pdf".to_string(),
            reason: "filename too short (need ≥9 chars, got 6)".to_string(),
        })
    );
}

#[test]
fn non_numeric_counter_segment_is_refused() {
    assert_eq!(
        counter_from_file_name("docABCDEF2026.pdf"),
        Err(ProcessorError::FilenameParseError {
            filename: "docABCDEF2026.pdf".to_string(),
            reason: "counter segment 'ABCDEF' is not a number: invalid digit found in string"
                .to_string(),
        })
    );
}

#[test]
fn signed_counter_segment_is_refused() {
    assert_eq!(
        counter_from_file_name("doc+04883xx.pdf"),
        Err(ProcessorError::FilenameParseError {
            filename: "doc+04883xx.pdf".to_string(),
            reason: "counter segment '+04883' is not a number: invalid digit found in string"
                .to_string(),
        })
    );
    assert!(extract_counter("/in/doc-0488320260310.pdf").is_err());
}

#[test]
fn path_without_file_name_is_refused() {
    assert_eq!(
        extract_counter("/"),
        Err(ProcessorError::FilenameParseError {
            filename: "/".to_string(),
            reason: "cannot read filename as UTF-8".to_string(),
        })
    );
}

#[test]
fn split_character_in_counter_bytes_is_reported() {
    // 'é' takes two bytes, so byte 3 falls inside it
    let reason = "counter segment (bytes 3..9) splits a multi-byte character".to_string();
    assert_eq!(
        extract_counter("doé004883x.pdf"),
        Err(ProcessorError::FilenameParseError {
            filename: "doé004883x.pdf".to_string(),
            reason: reason.clone(),
        })
    );
    // byte 9 inside a character
    assert_eq!(
        extract_counter("/in/doc12345é.pdf"),
        Err(ProcessorError::FilenameParseError { filename: "doc12345é.pdf".to_string(), reason })
    );
}

#[test]
fn counter_depends_on_the_file_name_only() {
    let name = "doc00488320260310093843.pdf";
    let joined = Path::new("/mnt/scanner/inbox").join(name);
    assert_eq!(extract_counter(joined.to_str().unwrap()), extract_counter(name));
    assert_eq!(extract_counter("a/b/doc1.pdf"), extract_counter("doc1.pdf"));
}

#[test]
fn scan_file_extension_case_and_prefix() {
    assert!(is_scan_file("doc00488320260310093843.PDF"));
    assert!(is_scan_file("/x/y/doc1.Pdf"));
    assert!(!is_scan_file("Doc00488320260310093843.pdf"));
    assert!(!is_scan_file("doc.pdf.txt"));
    assert!(!is_scan_file("doc"));
    assert!(!is_scan_file(""));
}
