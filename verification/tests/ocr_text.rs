use scanner_processor::error::ProcessorError;
use scanner_processor::ocr::{extract_number_from_text, select_application_number};

#[test]
fn test_extract_from_clean_text() {
    let text = "STUDENT'S APPLICATION NO. 21143";
    assert_eq!(extract_number_from_text(text).unwrap(), "21143");
}

#[test]
fn test_extract_prefers_longer() {
    let text = "NO. 21143 DATE 09";
    assert_eq!(extract_number_from_text(text).unwrap(), "21143");
}

#[test]
fn test_extract_fails_gracefully() {
    let text = "no numbers here at all";
    assert!(extract_number_from_text(text).is_err());
}

#[test]
fn missing_number_error_carries_the_text() {
    let text = "no numbers here at all";
    assert_eq!(
        extract_number_from_text(text),
        Err(ProcessorError::ApplicationNumberNotFound { ocr_text: text.to_string() })
    );
}

#[test]
fn longest_candidate_wins_even_when_first() {
    assert_eq!(extract_number_from_text("2024 123456 7777").unwrap(), "123456");
}

#[test]
fn equally_long_candidates_give_the_last() {
    assert_eq!(extract_number_from_text("1234 5678").unwrap(), "5678");
}

#[test]
fn runs_outside_four_to_twelve_digits_are_ignored() {
    // three digits and thirteen digits are not application numbers
    assert!(extract_number_from_text("123 1234567890123").is_err());
}

#[test]
fn digits_glued_to_letters_are_not_words() {
    assert!(extract_number_from_text("AB12345").is_err());
    assert_eq!(extract_number_from_text("AB12345 99999").unwrap(), "99999");
}

#[test]
fn selection_on_given_candidates() {
    let c = vec!["1111".to_string(), "222222".to_string(), "333333".to_string(), "44".to_string()];
    assert_eq!(select_application_number("x", &c).unwrap(), "333333");
    let empty: Vec<String> = Vec::new();
    assert_eq!(
        select_application_number("x", &empty),
        Err(ProcessorError::ApplicationNumberNotFound { ocr_text: "x".to_string() })
    );
}
