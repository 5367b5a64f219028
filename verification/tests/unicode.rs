use wiki::unicode::{char_to_lowercase, is_alphanumeric, is_lowercase, is_numeric, is_uppercase, to_lowercase};

#[test]
fn ascii_classes_follow_letters_and_digits() {
    assert!(is_alphanumeric('a') && is_alphanumeric('Z') && is_alphanumeric('7'));
    assert!(!is_alphanumeric('-') && !is_alphanumeric(' '));
    assert!(is_uppercase('Q') && !is_uppercase('q') && !is_uppercase('1'));
    assert!(is_lowercase('q') && !is_lowercase('Q'));
    assert!(is_numeric('0') && !is_numeric('x'));
}

#[test]
fn lowercase_maps_ascii_and_unicode_letters() {
    assert_eq!(to_lowercase("RoleService-42"), "roleservice-42");
    assert_eq!(char_to_lowercase('A'), "a");
    assert_eq!(to_lowercase("ÄÖ"), "äö");
    assert!(is_alphanumeric('中'));
}
