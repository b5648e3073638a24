use doc_md::lifecycle::{
    classify_migration, legacy_subdir_name, should_remove_legacy, validate_output_directory,
    MigrationOutcome, OutputPathError,
};
use doc_md::text::{normalize_separators, push_dec, str_lex_le};

#[test]
fn normalize_replaces_hyphens() {
    assert_eq!(normalize_separators("my-crate"), "my_crate");
    assert_eq!(normalize_separators("a--b-c"), "a__b_c");
}

#[test]
fn normalize_keeps_other_characters() {
    assert_eq!(normalize_separators("serde_json"), "serde_json");
    assert_eq!(normalize_separators(""), "");
    assert_eq!(normalize_separators("x1.2_3"), "x1.2_3");
}

#[test]
fn lex_le_orders_names() {
    assert!(str_lex_le("abc", "abd"));
    assert!(!str_lex_le("abd", "abc"));
    assert!(str_lex_le("abc", "abc"));
    assert!(str_lex_le("ab", "abc"));
    assert!(!str_lex_le("abc", "ab"));
    assert!(str_lex_le("", "a"));
    assert!(str_lex_le("Zed", "apple"));
}

#[test]
fn decimal_rendering() {
    let mut s = String::new();
    push_dec(&mut s, 0);
    assert_eq!(s, "0");
    let mut s = String::new();
    push_dec(&mut s, 7);
    assert_eq!(s, "7");
    let mut s = String::new();
    push_dec(&mut s, 42);
    assert_eq!(s, "42");
    let mut s = String::from("n = ");
    push_dec(&mut s, 1234567890);
    assert_eq!(s, "n = 1234567890");
}

#[test]
fn output_directory_validation() {
    assert_eq!(
        validate_output_directory(true, true),
        Err(OutputPathError::ExistingFile)
    );
    assert_eq!(validate_output_directory(true, false), Ok(()));
    assert_eq!(validate_output_directory(false, false), Ok(()));
    assert_eq!(validate_output_directory(false, true), Ok(()));
}

#[test]
fn legacy_migration_decisions() {
    assert_eq!(legacy_subdir_name(), "deps");
    assert!(should_remove_legacy(true, true));
    assert!(!should_remove_legacy(true, false));
    assert!(!should_remove_legacy(false, false));
    assert_eq!(classify_migration(false, false), MigrationOutcome::NotPresent);
    assert_eq!(classify_migration(false, true), MigrationOutcome::NotPresent);
    assert_eq!(classify_migration(true, true), MigrationOutcome::Removed);
    assert_eq!(
        classify_migration(true, false),
        MigrationOutcome::RemovalFailed
    );
}
