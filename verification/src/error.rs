use vstd::prelude::*;

verus! {

/// What can go wrong while a listing is produced.
#[derive(Debug, PartialEq, Eq)]
pub enum ListingError {
    /// The target path does not exist.
    PathNotFound,
    /// More than one listing mode was requested.
    Configuration,
    /// The directory with this path could not be enumerated.
    Traversal(String),
    /// The entry with this path has no final component to display.
    Path(String),
    /// The width of the terminal could not be determined.
    TerminalWidthUnavailable,
}

/// A `ListingError` as contracts see it: the paths are character sequences.
pub enum ListingErrorView {
    PathNotFound,
    Configuration,
    Traversal(Seq<char>),
    Path(Seq<char>),
    TerminalWidthUnavailable,
}

impl View for ListingError {
    type V = ListingErrorView;

    open spec fn view(&self) -> ListingErrorView {
        match self {
            ListingError::PathNotFound => ListingErrorView::PathNotFound,
            ListingError::Configuration => ListingErrorView::Configuration,
            ListingError::Traversal(path) => ListingErrorView::Traversal(path@),
            ListingError::Path(path) => ListingErrorView::Path(path@),
            ListingError::TerminalWidthUnavailable => ListingErrorView::TerminalWidthUnavailable,
        }
    }
}

impl ListingErrorView {
    /// The fixed part of the message, before the offending path if there is one.
    pub open spec fn headline(self) -> Seq<char> {
        match self {
            ListingErrorView::PathNotFound => "error: the path does not exist"@,
            ListingErrorView::Configuration => "error: -r, -f and -w cannot be combined"@,
            ListingErrorView::Traversal(_) => "error: cannot read directory: "@,
            ListingErrorView::Path(_) => "error: no file name in path: "@,
            ListingErrorView::TerminalWidthUnavailable => "error: the terminal width is not available"@,
        }
    }

    /// The path that the error carries; empty if it carries none.
    pub open spec fn subject(self) -> Seq<char> {
        match self {
            ListingErrorView::Traversal(path) => path,
            ListingErrorView::Path(path) => path,
            _ => Seq::empty(),
        }
    }

    /// The message shown to the user: the headline followed by the subject.
    pub open spec fn message(self) -> Seq<char> {
        self.headline() + self.subject()
    }
}

impl ListingError {
    /// The message shown to the user.
    pub fn message(&self) -> (text: String)
        ensures
            text@ == self@.message(),
    {
        match self {
            ListingError::PathNotFound => String::from_str("error: the path does not exist"),
            ListingError::Configuration => String::from_str(
                "error: -r, -f and -w cannot be combined",
            ),
            ListingError::Traversal(path) => String::from_str(
                "error: cannot read directory: ",
            ).concat(path.as_str()),
            ListingError::Path(path) => String::from_str("error: no file name in path: ").concat(
                path.as_str(),
            ),
            ListingError::TerminalWidthUnavailable => String::from_str(
                "error: the terminal width is not available",
            ),
        }
    }
}

} // verus!
