use cloud_storage::naming::{decimal_text, last_dot, numbered_name};

#[test]
fn first_duplicate_is_numbered_one() {
    assert_eq!(numbered_name("a.txt", 1), "a (1).txt");
}

#[test]
fn name_is_split_at_its_last_dot() {
    assert_eq!(numbered_name("archive.tar.gz", 2), "archive.tar (2).gz");
}

#[test]
fn name_without_a_dot_is_all_base() {
    assert_eq!(numbered_name("README", 3), "README (3).");
}

#[test]
fn name_that_starts_with_its_only_dot_has_an_empty_base() {
    assert_eq!(numbered_name(".profile", 1), " (1).profile");
}

#[test]
fn name_that_ends_in_a_dot_has_an_empty_extension() {
    assert_eq!(numbered_name("notes.", 4), "notes (4).");
}

#[test]
fn count_is_written_in_decimal() {
    assert_eq!(numbered_name("a.txt", 10), "a (10).txt");
    assert_eq!(numbered_name("a.txt", 1234567), "a (1234567).txt");
}

#[test]
fn name_with_letters_outside_ascii_is_split_by_characters() {
    assert_eq!(numbered_name("übung.größe", 1), "übung (1).größe");
}

#[test]
fn decimal_text_of_small_and_large_numbers() {
    assert_eq!(decimal_text(0), "0");
    assert_eq!(decimal_text(7), "7");
    assert_eq!(decimal_text(10), "10");
    assert_eq!(decimal_text(909), "909");
    assert_eq!(decimal_text(usize::MAX), usize::MAX.to_string());
}

#[test]
fn last_dot_is_found_by_character_position() {
    assert_eq!(last_dot("a.b.c"), Some(3));
    assert_eq!(last_dot("ü.x"), Some(1));
    assert_eq!(last_dot("none"), None);
    assert_eq!(last_dot(""), None);
    assert_eq!(last_dot("."), Some(0));
}
