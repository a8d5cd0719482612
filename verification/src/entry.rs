//! Directory entries as the listing sees them.

use vstd::prelude::*;

verus! {

/// One item of a directory: its path, and whether it is a directory itself.
#[derive(Debug, PartialEq, Eq)]
pub struct Entry {
    pub path: String,
    pub is_directory: bool,
}

/// An `Entry` as contracts see it: the path is a character sequence.
pub struct EntryView {
    pub path: Seq<char>,
    pub is_directory: bool,
}

impl View for Entry {
    type V = EntryView;

    open spec fn view(&self) -> EntryView {
        EntryView { path: self.path@, is_directory: self.is_directory }
    }
}

impl DeepView for Entry {
    type V = EntryView;

    open spec fn deep_view(&self) -> EntryView {
        self@
    }
}

impl Clone for Entry {
    fn clone(&self) -> (copy: Self)
        ensures
            copy@ == self@,
    {
        Entry { path: self.path.clone(), is_directory: self.is_directory }
    }
}

impl Entry {
    /// The entry with the given path.
    pub fn new(path: String, is_directory: bool) -> (entry: Entry)
        ensures
            entry@ == (EntryView { path: path@, is_directory }),
    {
        Entry { path, is_directory }
    }
}

/// The paths of the entries, in their order.
pub open spec fn paths(entries: Seq<EntryView>) -> Seq<Seq<char>> {
    Seq::new(entries.len(), |i: int| entries[i].path)
}

/// The raw paths of the entries of a directory, in the order in which the
/// directory was enumerated.
pub fn get_dir_files(entries: &Vec<Entry>) -> (files: Vec<String>)
    ensures
        files.deep_view() == paths(entries.deep_view()),
{
    let mut files: Vec<String> = Vec::new();
    let mut i: usize = 0;
    while i < entries.len()
        invariant
            i <= entries.len(),
            files.deep_view() == paths(entries.deep_view().take(i as int)),
        decreases entries.len() - i,
    {
        let ghost before = files.deep_view();
        files.push(entries[i].path.clone());
        assert(files.deep_view() == before.push(entries[i as int].path@));
        assert(entries.deep_view()[i as int] == entries[i as int]@);
        i = i + 1;
    }
    assert(entries.deep_view().take(i as int) == entries.deep_view());
    files
}

} // verus!
