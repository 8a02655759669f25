use kite::identity::{is_default_digit, is_not_undergraduate, is_student_id, Identity, UserError};

#[test]
fn test_is_ascii_digit() {
    assert!(is_default_digit("123456"));
    assert!(!is_default_digit("1234567"));
    assert!(!is_default_digit("Hello1"));
}

#[test]
fn test_is_student_id() {
    assert!(is_student_id("2111421206"));
    assert!(!is_student_id("21310101208032"));
}

#[test]
fn test_is_undergraduate() {
    assert!(!is_not_undergraduate("12456789"));
    assert!(is_not_undergraduate("12345678"))
}

#[test]
fn default_digit_needs_six_ascii_digits() {
    assert!(!is_default_digit("12345"));
    assert!(!is_default_digit("12345a"));
    assert!(!is_default_digit(""));
    assert!(is_default_digit("000000"));
}

#[test]
fn student_id_lengths() {
    assert!(is_student_id("211142120"));
    assert!(!is_student_id("21114212"));
    assert!(!is_student_id(""));
}

#[test]
fn third_character_counts_characters_not_bytes() {
    assert!(!is_not_undergraduate("é3x"));
    assert!(is_not_undergraduate("é23"));
    assert!(!is_not_undergraduate("12"));
}

#[test]
fn identity_new_keeps_fields() {
    let id = Identity::new(7, "2111421206".to_string());
    assert_eq!(id.uid, 7);
    assert_eq!(id.student_id, "2111421206");
}

#[test]
fn oa_account_checks_in_order() {
    assert_eq!(Identity::check_oa_account("x", "123456"), Err(UserError::DefaultSecretDenied));
    assert_eq!(Identity::check_oa_account("12345", "secret1"), Err(UserError::NoSuchStudentNo));
    assert_eq!(Identity::check_oa_account("1131010120", "secret1"), Err(UserError::NoSupport));
    assert_eq!(Identity::check_oa_account("2111421206", "secret1"), Ok(()));
}
