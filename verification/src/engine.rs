//! The listing engine: from the options and what the host found on disk to
//! the lines of the listing, in one of four modes.

use crate::entry::{paths, get_dir_files, Entry, EntryView};
use crate::error::{ListingError, ListingErrorView};
use crate::layout::{pack, packed};
use crate::order::{is_sorted_listing, lemma_sorted_names, sort_names, sorted_names};
use crate::path_format::{display_name, format_entries, formatted, lemma_first_unnamed};
use crate::terminal::get_term_width;
use crate::traverse::{
    lemma_flat_walk, lemma_recursive_walk, started, supplied, walked, Walker, WalkerView,
};
use crate::tree::{
    is_address, lemma_directory_before_descendants, lemma_place_names_entry, place, preorder,
    tree_at, Tree,
};
use vstd::prelude::*;

verus! {

/// The spaces between the longest name of a wide listing and the next column.
pub const WIDE_PADDING: usize = 4;

/// How the entries of the target are listed.
#[derive(Clone, Copy, Debug, PartialEq, Eq, Structural)]
pub enum Mode {
    /// The display names of the entries of the target, sorted, one per line.
    Plain,
    /// The raw paths of the entries of the target, as enumerated, one per line.
    Full,
    /// The display names of all entries below the target, each directory
    /// before what it holds, one per line.
    Recursive,
    /// The display names of the entries of the target, as enumerated, in
    /// columns that fit the terminal.
    Wide,
}

/// What to list, and how.
#[derive(Debug)]
pub struct ListingOptions {
    pub target_path: String,
    pub mode: Mode,
}

/// The mode that the three flags ask for: the one that is set, `Plain` if
/// none is, and an error if more than one is.
pub open spec fn mode_of(recursive: bool, full: bool, wide: bool) -> Result<Mode, ListingError> {
    if recursive && !full && !wide {
        Ok(Mode::Recursive)
    } else if !recursive && full && !wide {
        Ok(Mode::Full)
    } else if !recursive && !full && wide {
        Ok(Mode::Wide)
    } else if !recursive && !full && !wide {
        Ok(Mode::Plain)
    } else {
        Err(ListingError::Configuration)
    }
}

/// The mode that the three flags ask for; `ListingError::Configuration` where
/// more than one of them is set.
pub fn select_mode(recursive: bool, full: bool, wide: bool) -> (mode: Result<Mode, ListingError>)
    ensures
        mode == mode_of(recursive, full, wide),
{
    match (recursive, full, wide) {
        (true, false, false) => Ok(Mode::Recursive),
        (false, true, false) => Ok(Mode::Full),
        (false, false, true) => Ok(Mode::Wide),
        (false, false, false) => Ok(Mode::Plain),
        _ => Err(ListingError::Configuration),
    }
}

/// A listing in progress: the mode, and the traversal that finds the entries.
pub struct Engine {
    mode: Mode,
    walker: Walker,
}

/// An `Engine` as contracts see it.
pub struct EngineView {
    pub mode: Mode,
    pub walk: WalkerView,
}

impl View for Engine {
    type V = EngineView;

    closed spec fn view(&self) -> EngineView {
        EngineView { mode: self.mode, walk: self.walker@ }
    }
}

/// The lines of a listing, or the error that took their place, as contracts
/// see them.
pub open spec fn outcome_view(outcome: Result<Vec<String>, ListingError>) -> Result<
    Seq<Seq<char>>,
    ListingErrorView,
> {
    match outcome {
        Ok(lines) => Ok(lines.deep_view()),
        Err(e) => Err(e@),
    }
}

/// The lines that `mode` makes of the entries found, on a terminal of the
/// given width if that is known.
pub open spec fn rendered(mode: Mode, entries: Seq<EntryView>, width: Option<usize>) -> Result<
    Seq<Seq<char>>,
    ListingErrorView,
> {
    match mode {
        Mode::Full => Ok(paths(entries)),
        Mode::Recursive => formatted(entries),
        Mode::Plain => match formatted(entries) {
            Ok(names) => Ok(sorted_names(names)),
            Err(e) => Err(e),
        },
        Mode::Wide => match width {
            None => Err(ListingErrorView::TerminalWidthUnavailable),
            Some(columns) => match formatted(entries) {
                Ok(names) => Ok(packed(names, columns as nat, WIDE_PADDING as nat)),
                Err(e) => Err(e),
            },
        },
    }
}

/// How a listing ends: with the error of the directory that is still
/// awaited, if there is one, and else with what the mode makes of the entries
/// visited.
pub open spec fn outcome(state: EngineView, width: Option<usize>) -> Result<
    Seq<Seq<char>>,
    ListingErrorView,
> {
    match state.walk.awaiting {
        Some(directory) => Err(ListingErrorView::Traversal(directory)),
        None => rendered(state.mode, state.walk.visited, width),
    }
}

/// The lines that `mode` makes of `entries`, on a terminal of the given width
/// if that is known. The width counts in the wide mode only.
pub fn render(mode: Mode, entries: &Vec<Entry>, width: Option<usize>) -> (lines: Result<
    Vec<String>,
    ListingError,
>)
    ensures
        outcome_view(lines) == rendered(mode, entries.deep_view(), width),
{
    match mode {
        Mode::Full => Ok(get_dir_files(entries)),
        Mode::Recursive => format_entries(entries),
        Mode::Plain => match format_entries(entries) {
            Ok(names) => Ok(sort_names(names)),
            Err(e) => Err(e),
        },
        Mode::Wide => match width {
            None => Err(ListingError::TerminalWidthUnavailable),
            Some(columns) => match format_entries(entries) {
                Ok(names) => Ok(pack(&names, columns, WIDE_PADDING)),
                Err(e) => Err(e),
            },
        },
    }
}

impl Engine {
    /// Begins the listing that `options` ask for. `target_exists` says whether
    /// the host found the target path; where it did not, nothing is listed.
    pub fn start(options: ListingOptions, target_exists: bool) -> (engine: Result<
        Engine,
        ListingError,
    >)
        ensures
            match engine {
                Ok(engine) => target_exists && engine@ == (EngineView {
                    mode: options.mode,
                    walk: started(options.target_path@, options.mode == Mode::Recursive),
                }),
                Err(e) => !target_exists && e@ == ListingErrorView::PathNotFound,
            },
    {
        if !target_exists {
            return Err(ListingError::PathNotFound);
        }
        let recursive = match options.mode {
            Mode::Recursive => true,
            _ => false,
        };
        Ok(Engine { mode: options.mode, walker: Walker::new(options.target_path, recursive) })
    }

    /// Begins the listing that the flags of an invocation ask for. A target
    /// that does not exist is reported first, a conflict of the flags second.
    pub fn begin(
        target_path: String,
        target_exists: bool,
        recursive: bool,
        full: bool,
        wide: bool,
    ) -> (engine: Result<Engine, ListingError>)
        ensures
            match engine {
                Ok(engine) => {
                    &&& target_exists
                    &&& mode_of(recursive, full, wide) matches Ok(mode)
                    &&& engine@ == (EngineView {
                        mode,
                        walk: started(target_path@, mode == Mode::Recursive),
                    })
                },
                Err(e) => if target_exists {
                    mode_of(recursive, full, wide) is Err && e@ == ListingErrorView::Configuration
                } else {
                    e@ == ListingErrorView::PathNotFound
                },
            },
    {
        if !target_exists {
            return Err(ListingError::PathNotFound);
        }
        match select_mode(recursive, full, wide) {
            Ok(mode) => Engine::start(ListingOptions { target_path, mode }, target_exists),
            Err(e) => Err(e),
        }
    }

    /// The mode of the listing.
    pub fn mode(&self) -> (mode: Mode)
        ensures
            mode == self@.mode,
    {
        self.mode
    }

    /// The directory whose entries the host is to supply next; `None` once
    /// all entries are found.
    pub fn awaiting(&self) -> (directory: Option<&str>)
        ensures
            match directory {
                Some(path) => self@.walk.awaiting == Some(path@),
                None => self@.walk.awaiting is None,
            },
    {
        self.walker.awaiting()
    }

    /// Takes the entries of the awaited directory, in the order in which the
    /// directory was enumerated.
    pub fn supply(&mut self, listing: Vec<Entry>)
        ensures
            final(self)@ == (EngineView {
                mode: old(self)@.mode,
                walk: supplied(old(self)@.walk, listing.deep_view()),
            }),
    {
        self.walker.supply(listing);
    }

    /// Ends the listing on a terminal of the given width, if that is known.
    /// A directory that is still awaited was never supplied: it could not be
    /// read, and the listing fails with it.
    pub fn finish(self, width: Option<usize>) -> (lines: Result<Vec<String>, ListingError>)
        ensures
            outcome_view(lines) == outcome(self@, width),
    {
        match self.walker.awaiting() {
            Some(directory) => Err(ListingError::Traversal(directory.to_owned())),
            None => render(self.mode, self.walker.visited(), width),
        }
    }

    /// Ends the listing on the terminal of this process: the wide mode asks
    /// it for its width, the other modes need none.
    pub fn finish_on_terminal(self) -> (lines: Result<Vec<String>, ListingError>)
        ensures
            self@.mode != Mode::Wide || self@.walk.awaiting is Some ==> outcome_view(lines)
                == outcome(self@, None),
            exists|width: Option<usize>| outcome_view(lines) == outcome(self@, width),
    {
        if self.walker.is_complete() {
            if let Mode::Wide = self.mode {
                let width = match get_term_width() {
                    Ok(columns) => Some(columns),
                    Err(_) => None,
                };
                return self.finish(width);
            }
        }
        self.finish(None)
    }
}

/// Every sorted plain listing is the one that `rendered` gives: the names of
/// the entries in ascending lexicographic order, directories in brackets.
pub proof fn lemma_plain_is_sorted(entries: Seq<EntryView>, width: Option<usize>)
    ensures
        match formatted(entries) {
            Ok(names) => rendered(Mode::Plain, entries, width) matches Ok(lines)
                && is_sorted_listing(lines, names),
            Err(e) => rendered(Mode::Plain, entries, width) == Err::<
                Seq<Seq<char>>,
                ListingErrorView,
            >(e),
        },
{
    if let Ok(names) = formatted(entries) {
        lemma_sorted_names(names);
    }
}

/// A listing of `target` that does not descend, after the host supplied the
/// entries of `target`.
pub open spec fn listed(mode: Mode, target: Seq<char>, listing: Seq<EntryView>) -> EngineView {
    EngineView { mode, walk: supplied(started(target, false), listing) }
}

/// A recursive listing of `target`, after the host supplied, request by
/// request, what the directories below `target` hold: `forest` for `target`
/// itself.
pub open spec fn listed_recursively(target: Seq<char>, forest: Seq<Tree>) -> EngineView {
    EngineView { mode: Mode::Recursive, walk: walked(started(target, true), forest, Seq::empty()) }
}

/// The plain listing of a directory is the display names of its entries in
/// ascending lexicographic order, directories in brackets.
pub proof fn lemma_plain_listing(target: Seq<char>, listing: Seq<EntryView>, width: Option<usize>)
    ensures
        match formatted(listing) {
            Ok(names) => outcome(listed(Mode::Plain, target, listing), width) matches Ok(lines)
                && is_sorted_listing(lines, names),
            Err(e) => outcome(listed(Mode::Plain, target, listing), width) == Err::<
                Seq<Seq<char>>,
                ListingErrorView,
            >(e),
        },
{
    lemma_flat_walk(target, listing);
    lemma_plain_is_sorted(listing, width);
}

/// The full listing of a directory is the raw paths of its entries, in the
/// order in which the directory was enumerated.
pub proof fn lemma_full_listing(target: Seq<char>, listing: Seq<EntryView>, width: Option<usize>)
    ensures
        outcome(listed(Mode::Full, target, listing), width) == Ok::<
            Seq<Seq<char>>,
            ListingErrorView,
        >(paths(listing)),
{
    lemma_flat_walk(target, listing);
}

/// The wide listing of a directory is the display names of its entries, in
/// the order in which the directory was enumerated, packed for the terminal.
pub proof fn lemma_wide_listing(target: Seq<char>, listing: Seq<EntryView>, columns: usize)
    ensures
        outcome(listed(Mode::Wide, target, listing), Some(columns)) == match formatted(listing) {
            Ok(names) => Ok(packed(names, columns as nat, WIDE_PADDING as nat)),
            Err(e) => Err(e),
        },
        outcome(listed(Mode::Wide, target, listing), None) == Err::<
            Seq<Seq<char>>,
            ListingErrorView,
        >(ListingErrorView::TerminalWidthUnavailable),
{
    lemma_flat_walk(target, listing);
}

/// The recursive listing of a directory is the display names of all entries
/// below it in pre-order.
pub proof fn lemma_recursive_listing(target: Seq<char>, forest: Seq<Tree>, width: Option<usize>)
    ensures
        outcome(listed_recursively(target, forest), width) == formatted(preorder(forest)),
{
    lemma_recursive_walk(target, forest);
}

/// In a recursive listing every entry below the target has a line, which
/// holds its display name. (No two entries share a line and no line is left
/// over: see `lemma_place_is_injective` and `lemma_every_place_is_taken`.)
pub proof fn lemma_recursive_listing_names_every_entry(
    target: Seq<char>,
    forest: Seq<Tree>,
    width: Option<usize>,
    lines: Seq<Seq<char>>,
    address: Seq<int>,
)
    requires
        outcome(listed_recursively(target, forest), width) == Ok::<
            Seq<Seq<char>>,
            ListingErrorView,
        >(lines),
        is_address(forest, address),
    ensures
        lines.len() == preorder(forest).len(),
        0 <= place(forest, address) < lines.len(),
        lines[place(forest, address)] == display_name(
            tree_at(forest, address).entry.path,
            tree_at(forest, address).entry.is_directory,
        ),
{
    lemma_recursive_listing(target, forest, width);
    lemma_first_unnamed(preorder(forest));
    lemma_place_names_entry(forest, address);
}

/// In a recursive listing the line of a directory comes before the line of
/// everything below that directory.
pub proof fn lemma_recursive_listing_order(
    target: Seq<char>,
    forest: Seq<Tree>,
    width: Option<usize>,
    lines: Seq<Seq<char>>,
    above: Seq<int>,
    below: Seq<int>,
)
    requires
        outcome(listed_recursively(target, forest), width) == Ok::<
            Seq<Seq<char>>,
            ListingErrorView,
        >(lines),
        above.len() > 0,
        below.len() > 0,
        is_address(forest, above + below),
    ensures
        0 <= place(forest, above) < place(forest, above + below) < lines.len(),
        tree_at(forest, above).entry.is_directory,
        lines[place(forest, above)] == display_name(tree_at(forest, above).entry.path, true),
        lines[place(forest, above + below)] == display_name(
            tree_at(forest, above + below).entry.path,
            tree_at(forest, above + below).entry.is_directory,
        ),
{
    lemma_directory_before_descendants(forest, above, below);
    lemma_recursive_listing_names_every_entry(target, forest, width, lines, above);
    lemma_recursive_listing_names_every_entry(target, forest, width, lines, above + below);
}

} // verus!
