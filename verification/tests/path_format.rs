use dir_listing::entry::Entry;
use dir_listing::error::ListingError;
use dir_listing::path_format::{ceil_path, format_entries};

#[test]
fn directory_is_shown_in_brackets() {
    assert_eq!(ceil_path("/tmp/x", true), Ok("[x]".to_string()));
}

#[test]
fn file_is_shown_by_its_bare_name() {
    assert_eq!(ceil_path("/tmp/x/y.txt", false), Ok("y.txt".to_string()));
}

#[test]
fn path_without_separator_is_its_own_name() {
    assert_eq!(ceil_path("notes", false), Ok("notes".to_string()));
    assert_eq!(ceil_path("src", true), Ok("[src]".to_string()));
}

#[test]
fn root_has_no_name() {
    assert_eq!(ceil_path("/", true), Err(ListingError::Path("/".to_string())));
}

#[test]
fn empty_path_has_no_name() {
    assert_eq!(ceil_path("", false), Err(ListingError::Path(String::new())));
}

#[test]
fn path_that_ends_in_a_separator_has_no_name() {
    assert_eq!(ceil_path("/tmp/x/", true), Err(ListingError::Path("/tmp/x/".to_string())));
}

#[test]
fn name_keeps_characters_outside_ascii() {
    assert_eq!(ceil_path("/home/é/日本語.txt", false), Ok("日本語.txt".to_string()));
    assert_eq!(ceil_path("/home/é", true), Ok("[é]".to_string()));
}

#[test]
fn display_name_holds_no_separator() {
    for path in ["/a/b/c", "a/b", "/x", "deep/er/path/name.rs"] {
        let name = ceil_path(path, false).unwrap();
        assert!(!name.contains('/'));
        assert!(path.ends_with(&name));
    }
}

#[test]
fn entries_are_formatted_in_their_order() {
    let entries = vec![
        Entry::new("/d/b.txt".to_string(), false),
        Entry::new("/d/c".to_string(), true),
        Entry::new("/d/a.txt".to_string(), false),
    ];
    assert_eq!(
        format_entries(&entries),
        Ok(vec!["b.txt".to_string(), "[c]".to_string(), "a.txt".to_string()])
    );
}

#[test]
fn first_entry_without_a_name_fails_the_formatting() {
    let entries = vec![
        Entry::new("/d/a".to_string(), false),
        Entry::new("/d/".to_string(), true),
        Entry::new("/".to_string(), true),
    ];
    assert_eq!(format_entries(&entries), Err(ListingError::Path("/d/".to_string())));
}

#[test]
fn no_entries_have_no_names() {
    assert_eq!(format_entries(&Vec::new()), Ok(Vec::new()));
}
