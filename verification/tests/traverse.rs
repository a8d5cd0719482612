use dir_listing::entry::{get_dir_files, Entry};
use dir_listing::traverse::Walker;

fn file(path: &str) -> Entry {
    Entry::new(path.to_string(), false)
}

fn dir(path: &str) -> Entry {
    Entry::new(path.to_string(), true)
}

/// What a host finds in the directories of a small tree.
fn read(directory: &str) -> Vec<Entry> {
    match directory {
        "/r" => vec![file("/r/a"), dir("/r/d"), file("/r/z")],
        "/r/d" => vec![dir("/r/d/e"), file("/r/d/f")],
        "/r/d/e" => vec![file("/r/d/e/g")],
        _ => Vec::new(),
    }
}

fn walk(target: &str, recursive: bool) -> Vec<String> {
    let mut walker = Walker::new(target.to_string(), recursive);
    while let Some(directory) = walker.awaiting() {
        let listing = read(directory);
        walker.supply(listing);
    }
    assert!(walker.is_complete());
    get_dir_files(walker.visited())
}

#[test]
fn new_walk_awaits_its_target() {
    let walker = Walker::new("/r".to_string(), true);
    assert_eq!(walker.awaiting(), Some("/r"));
    assert!(!walker.is_complete());
    assert!(walker.visited().is_empty());
}

#[test]
fn flat_walk_visits_the_entries_as_enumerated() {
    assert_eq!(walk("/r", false), vec!["/r/a", "/r/d", "/r/z"]);
}

#[test]
fn flat_walk_is_complete_after_one_listing() {
    let mut walker = Walker::new("/r".to_string(), false);
    walker.supply(read("/r"));
    assert_eq!(walker.awaiting(), None);
    assert!(walker.is_complete());
}

#[test]
fn recursive_walk_visits_a_directory_before_what_it_holds() {
    assert_eq!(
        walk("/r", true),
        vec!["/r/a", "/r/d", "/r/d/e", "/r/d/e/g", "/r/d/f", "/r/z"]
    );
}

#[test]
fn recursive_walk_asks_for_each_directory_it_meets() {
    let mut walker = Walker::new("/r".to_string(), true);
    let mut asked = Vec::new();
    while let Some(directory) = walker.awaiting() {
        asked.push(directory.to_string());
        let listing = read(directory);
        walker.supply(listing);
    }
    assert_eq!(asked, vec!["/r", "/r/d", "/r/d/e"]);
}

#[test]
fn recursive_walk_stops_at_the_first_directory() {
    let mut walker = Walker::new("/r".to_string(), true);
    walker.supply(read("/r"));
    assert_eq!(walker.awaiting(), Some("/r/d"));
    assert_eq!(walker.visited(), &vec![file("/r/a"), dir("/r/d")]);
}

#[test]
fn every_entry_is_visited_once() {
    let visited = walk("/r", true);
    assert_eq!(visited.len(), 6);
    let mut unique = visited.clone();
    unique.sort();
    unique.dedup();
    assert_eq!(unique.len(), 6);
}

#[test]
fn empty_directory_completes_the_walk() {
    assert_eq!(walk("/nothing", true), Vec::<String>::new());
    assert_eq!(walk("/nothing", false), Vec::<String>::new());
}

#[test]
fn listing_for_a_complete_walk_is_ignored() {
    let mut walker = Walker::new("/r".to_string(), false);
    walker.supply(vec![file("/r/a")]);
    walker.supply(vec![file("/r/b")]);
    assert_eq!(walker.visited(), &vec![file("/r/a")]);
    assert!(walker.is_complete());
}

#[test]
fn raw_paths_keep_the_order_of_the_entries() {
    let entries = vec![file("/r/b.txt"), dir("/r/c"), file("/r/a.txt")];
    assert_eq!(get_dir_files(&entries), vec!["/r/b.txt", "/r/c", "/r/a.txt"]);
    assert_eq!(get_dir_files(&Vec::new()), Vec::<String>::new());
}

#[test]
fn clone_of_an_entry_is_the_entry() {
    let entry = dir("/r/d");
    assert_eq!(entry.clone(), entry);
}
