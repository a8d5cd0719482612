use dir_listing::layout::{compute_layout, get_string_max_length, pack, Layout};

fn name_list(list: &[&str]) -> Vec<String> {
    list.iter().map(|s| s.to_string()).collect()
}

#[test]
fn longest_name_of_none_is_zero() {
    assert_eq!(get_string_max_length(&Vec::new()), 0);
}

#[test]
fn longest_name_is_found() {
    assert_eq!(get_string_max_length(&name_list(&["aa", "bbbb", "c"])), 4);
    assert_eq!(get_string_max_length(&name_list(&["bbbb", "aa"])), 4);
    assert_eq!(get_string_max_length(&name_list(&["", ""])), 0);
}

#[test]
fn length_counts_bytes() {
    assert_eq!(get_string_max_length(&name_list(&["é", "a"])), 2);
    assert_eq!(get_string_max_length(&name_list(&["日本語"])), 9);
}

#[test]
fn three_names_in_one_row() {
    let list = name_list(&["aa", "bbbb", "c"]);
    assert_eq!(
        compute_layout(&list, 20, 2),
        Some(Layout { column_width: 6, columns_per_row: 3 })
    );
    assert_eq!(pack(&list, 20, 2), vec!["aa    bbbb  c     ".to_string()]);
}

#[test]
fn row_breaks_after_every_full_row() {
    let list = name_list(&["a", "b", "c", "d", "e"]);
    assert_eq!(
        pack(&list, 7, 2),
        vec!["a  b  ".to_string(), "c  d  ".to_string(), "e  ".to_string()]
    );
}

#[test]
fn no_blank_row_before_or_after() {
    let list = name_list(&["a", "b", "c", "d"]);
    let rows = pack(&list, 6, 2);
    assert_eq!(rows, vec!["a  b  ".to_string(), "c  d  ".to_string()]);
    assert!(rows.iter().all(|row| !row.is_empty()));
}

#[test]
fn no_names_give_no_rows() {
    assert_eq!(pack(&Vec::new(), 80, 4), Vec::<String>::new());
    assert_eq!(pack(&Vec::new(), 0, 0), Vec::<String>::new());
}

#[test]
fn narrow_terminal_shows_one_column() {
    let list = name_list(&["alpha", "beta"]);
    assert_eq!(
        compute_layout(&list, 3, 2),
        Some(Layout { column_width: 7, columns_per_row: 1 })
    );
    assert_eq!(pack(&list, 3, 2), vec!["alpha  ".to_string(), "beta   ".to_string()]);
}

#[test]
fn terminal_of_width_one_still_shows_a_column() {
    let list = name_list(&["x"]);
    assert_eq!(compute_layout(&list, 1, 4).unwrap().columns_per_row, 1);
    assert_eq!(pack(&list, 1, 4), vec!["x    ".to_string()]);
}

#[test]
fn column_of_width_zero_shows_one_column() {
    let list = name_list(&["", ""]);
    assert_eq!(
        compute_layout(&list, 10, 0),
        Some(Layout { column_width: 0, columns_per_row: 1 })
    );
    assert_eq!(pack(&list, 10, 0), vec![String::new(), String::new()]);
}

#[test]
fn column_width_beyond_usize_gives_no_layout() {
    let list = name_list(&["abc"]);
    assert_eq!(compute_layout(&list, 80, usize::MAX), None);
    assert_eq!(
        compute_layout(&list, 80, usize::MAX - 3),
        Some(Layout { column_width: usize::MAX, columns_per_row: 1 })
    );
}

#[test]
fn packing_twice_gives_the_same_rows() {
    let list = name_list(&["one", "three", "fifteen", "x", "yy"]);
    assert_eq!(pack(&list, 24, 3), pack(&list, 24, 3));
}

#[test]
fn columns_fill_the_terminal_exactly() {
    let list = name_list(&["ab", "cd", "ef", "gh"]);
    assert_eq!(compute_layout(&list, 12, 1).unwrap().columns_per_row, 4);
    assert_eq!(compute_layout(&list, 11, 1).unwrap().columns_per_row, 3);
    assert_eq!(pack(&list, 12, 1), vec!["ab cd ef gh ".to_string()]);
}

#[test]
fn every_field_is_as_wide_as_the_column() {
    let list = name_list(&["é", "abc", "日本"]);
    let rows = pack(&list, 1, 1);
    assert_eq!(rows.len(), 3);
    for row in &rows {
        assert_eq!(row.chars().count(), 7);
    }
    assert_eq!(rows[0], format!("é{}", " ".repeat(6)));
}

#[test]
fn rows_joined_are_the_fields_in_order() {
    let list = name_list(&["a", "bb", "ccc", "d", "ee", "fff", "g"]);
    let joined: String = pack(&list, 10, 1).concat();
    assert_eq!(joined, "a   bb  ccc d   ee  fff g   ");
}
