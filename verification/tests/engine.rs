use dir_listing::engine::{render, select_mode, Engine, ListingOptions, Mode, WIDE_PADDING};
use dir_listing::entry::Entry;
use dir_listing::error::ListingError;
use dir_listing::terminal::{get_term_width, width_from_dimensions};

fn plain_file(path: &str) -> Entry {
    Entry::new(path.to_string(), false)
}

fn folder(path: &str) -> Entry {
    Entry::new(path.to_string(), true)
}

fn lines(list: &[&str]) -> Vec<String> {
    list.iter().map(|s| s.to_string()).collect()
}

/// What a host finds in a directory of two files and a directory.
fn listing_of(directory: &str) -> Vec<Entry> {
    match directory {
        "/home" => vec![plain_file("/home/b.txt"), plain_file("/home/a.txt"), folder("/home/c")],
        "/home/c" => vec![plain_file("/home/c/inner.rs"), folder("/home/c/sub")],
        _ => Vec::new(),
    }
}

fn run(mode: Mode, width: Option<usize>) -> Result<Vec<String>, ListingError> {
    let options = ListingOptions { target_path: "/home".to_string(), mode };
    let mut engine = Engine::start(options, true)?;
    while let Some(directory) = engine.awaiting() {
        let listing = listing_of(directory);
        engine.supply(listing);
    }
    engine.finish(width)
}

#[test]
fn no_flag_selects_the_plain_mode() {
    assert_eq!(select_mode(false, false, false), Ok(Mode::Plain));
}

#[test]
fn one_flag_selects_its_mode() {
    assert_eq!(select_mode(true, false, false), Ok(Mode::Recursive));
    assert_eq!(select_mode(false, true, false), Ok(Mode::Full));
    assert_eq!(select_mode(false, false, true), Ok(Mode::Wide));
}

#[test]
fn more_than_one_flag_is_a_configuration_error() {
    assert_eq!(select_mode(true, true, false), Err(ListingError::Configuration));
    assert_eq!(select_mode(true, false, true), Err(ListingError::Configuration));
    assert_eq!(select_mode(false, true, true), Err(ListingError::Configuration));
    assert_eq!(select_mode(true, true, true), Err(ListingError::Configuration));
}

#[test]
fn plain_mode_sorts_the_display_names() {
    assert_eq!(run(Mode::Plain, None), Ok(lines(&["[c]", "a.txt", "b.txt"])));
}

#[test]
fn full_mode_gives_the_raw_paths_as_enumerated() {
    assert_eq!(run(Mode::Full, None), Ok(lines(&["/home/b.txt", "/home/a.txt", "/home/c"])));
}

#[test]
fn recursive_mode_gives_the_names_in_the_order_of_the_walk() {
    assert_eq!(
        run(Mode::Recursive, None),
        Ok(lines(&["b.txt", "a.txt", "[c]", "inner.rs", "[sub]"]))
    );
}

#[test]
fn wide_mode_packs_the_names_as_enumerated() {
    assert_eq!(WIDE_PADDING, 4);
    assert_eq!(run(Mode::Wide, Some(20)), Ok(lines(&["b.txt    a.txt    ", "[c]      "])));
    assert_eq!(run(Mode::Wide, Some(80)), Ok(lines(&["b.txt    a.txt    [c]      "])));
}

#[test]
fn wide_mode_needs_the_terminal_width() {
    assert_eq!(run(Mode::Wide, None), Err(ListingError::TerminalWidthUnavailable));
}

#[test]
fn other_modes_need_no_terminal_width() {
    assert_eq!(run(Mode::Plain, Some(1)), run(Mode::Plain, None));
    assert_eq!(run(Mode::Full, Some(1)), run(Mode::Full, None));
    assert_eq!(run(Mode::Recursive, Some(1)), run(Mode::Recursive, None));
}

#[test]
fn missing_target_is_reported_and_nothing_is_listed() {
    for mode in [Mode::Plain, Mode::Full, Mode::Recursive, Mode::Wide] {
        let options = ListingOptions { target_path: "/missing".to_string(), mode };
        assert_eq!(Engine::start(options, false).err(), Some(ListingError::PathNotFound));
    }
}

#[test]
fn missing_target_is_reported_before_a_conflict_of_flags() {
    let begun = Engine::begin("/missing".to_string(), false, true, true, false);
    assert_eq!(begun.err(), Some(ListingError::PathNotFound));
}

#[test]
fn conflict_of_flags_is_reported_for_an_existing_target() {
    let begun = Engine::begin("/home".to_string(), true, true, true, false);
    assert_eq!(begun.err(), Some(ListingError::Configuration));
}

#[test]
fn listing_begun_from_flags_has_their_mode() {
    let engine = Engine::begin("/home".to_string(), true, false, false, true).unwrap();
    assert_eq!(engine.mode(), Mode::Wide);
    assert_eq!(engine.awaiting(), Some("/home"));
    let engine = Engine::begin("/home".to_string(), true, false, false, false).unwrap();
    assert_eq!(engine.mode(), Mode::Plain);
}

#[test]
fn only_the_recursive_mode_descends() {
    for mode in [Mode::Plain, Mode::Full, Mode::Wide] {
        let options = ListingOptions { target_path: "/home".to_string(), mode };
        let mut engine = Engine::start(options, true).unwrap();
        engine.supply(listing_of("/home"));
        assert_eq!(engine.awaiting(), None);
    }
    let options = ListingOptions { target_path: "/home".to_string(), mode: Mode::Recursive };
    let mut engine = Engine::start(options, true).unwrap();
    engine.supply(listing_of("/home"));
    assert_eq!(engine.awaiting(), Some("/home/c"));
}

#[test]
fn directory_that_was_not_supplied_fails_the_listing() {
    let options = ListingOptions { target_path: "/home".to_string(), mode: Mode::Plain };
    let engine = Engine::start(options, true).unwrap();
    assert_eq!(engine.finish(None), Err(ListingError::Traversal("/home".to_string())));

    let options = ListingOptions { target_path: "/home".to_string(), mode: Mode::Recursive };
    let mut engine = Engine::start(options, true).unwrap();
    engine.supply(listing_of("/home"));
    assert_eq!(engine.finish(Some(80)), Err(ListingError::Traversal("/home/c".to_string())));
}

#[test]
fn entry_without_a_name_fails_the_modes_that_format() {
    let entries = vec![plain_file("/home/a"), folder("/")];
    let failure = Err(ListingError::Path("/".to_string()));
    assert_eq!(render(Mode::Plain, &entries, None), failure);
    assert_eq!(render(Mode::Recursive, &entries, None), failure);
    assert_eq!(render(Mode::Wide, &entries, Some(80)), failure);
    assert_eq!(render(Mode::Full, &entries, None), Ok(lines(&["/home/a", "/"])));
}

#[test]
fn missing_width_is_reported_before_an_entry_without_a_name() {
    let entries = vec![folder("/")];
    assert_eq!(
        render(Mode::Wide, &entries, None),
        Err(ListingError::TerminalWidthUnavailable)
    );
}

#[test]
fn empty_directory_gives_no_lines() {
    for mode in [Mode::Plain, Mode::Full, Mode::Recursive, Mode::Wide] {
        assert_eq!(render(mode, &Vec::new(), Some(80)), Ok(Vec::new()));
    }
}

#[test]
fn width_is_the_first_of_the_dimensions() {
    assert_eq!(width_from_dimensions(Some((80, 24))), Ok(80));
    assert_eq!(width_from_dimensions(Some((0, 7))), Ok(0));
    assert_eq!(width_from_dimensions(None), Err(ListingError::TerminalWidthUnavailable));
}

#[test]
fn terminal_width_is_a_width_or_unavailable() {
    match get_term_width() {
        Ok(_) => {}
        Err(e) => assert_eq!(e, ListingError::TerminalWidthUnavailable),
    }
}

#[test]
fn listing_on_the_terminal_agrees_with_the_listing_for_some_width() {
    let options = ListingOptions { target_path: "/home".to_string(), mode: Mode::Plain };
    let mut engine = Engine::start(options, true).unwrap();
    engine.supply(listing_of("/home"));
    assert_eq!(engine.finish_on_terminal(), Ok(lines(&["[c]", "a.txt", "b.txt"])));

    let options = ListingOptions { target_path: "/home".to_string(), mode: Mode::Wide };
    let mut engine = Engine::start(options, true).unwrap();
    engine.supply(listing_of("/home"));
    match engine.finish_on_terminal() {
        Ok(rows) => assert_eq!(rows.concat(), "b.txt    a.txt    [c]      "),
        Err(e) => assert_eq!(e, ListingError::TerminalWidthUnavailable),
    }

    let options = ListingOptions { target_path: "/home".to_string(), mode: Mode::Wide };
    let engine = Engine::start(options, true).unwrap();
    assert_eq!(engine.finish_on_terminal(), Err(ListingError::Traversal("/home".to_string())));
}

#[test]
fn errors_have_messages() {
    assert_eq!(ListingError::PathNotFound.message(), "error: the path does not exist");
    assert_eq!(
        ListingError::Configuration.message(),
        "error: -r, -f and -w cannot be combined"
    );
    assert_eq!(
        ListingError::Traversal("/home/c".to_string()).message(),
        "error: cannot read directory: /home/c"
    );
    assert_eq!(
        ListingError::Path("/".to_string()).message(),
        "error: no file name in path: /"
    );
    assert_eq!(
        ListingError::TerminalWidthUnavailable.message(),
        "error: the terminal width is not available"
    );
}
