//! Display names: how a path is shown in a listing.

use crate::entry::{Entry, EntryView};
use crate::error::{ListingError, ListingErrorView};
use vstd::prelude::*;
use vstd::std_specs::iter::IteratorSpec;

verus! {

/// The character that separates the components of a path.
pub open spec fn is_separator(c: char) -> bool {
    c == '/'
}

/// Where the final component of `path` begins: just behind the last separator,
/// or at 0 if `path` holds no separator.
pub open spec fn component_start(path: Seq<char>) -> int
    decreases path.len(),
{
    if path.len() == 0 {
        0
    } else if is_separator(path.last()) {
        path.len() as int
    } else {
        component_start(path.drop_last())
    }
}

/// The final component of `path`: the segment behind the last separator.
/// It is empty where `path` is empty or ends in a separator.
pub open spec fn final_component(path: Seq<char>) -> Seq<char> {
    path.subrange(component_start(path), path.len() as int)
}

/// Whether `path` has a final component that can be shown.
pub open spec fn has_final_component(path: Seq<char>) -> bool {
    final_component(path).len() > 0
}

/// The display name of an entry: its final component, in square brackets if
/// the entry is a directory.
pub open spec fn display_name(path: Seq<char>, is_directory: bool) -> Seq<char> {
    if is_directory {
        seq!['['] + final_component(path) + seq![']']
    } else {
        final_component(path)
    }
}

/// `component_start` is the one index behind which no separator follows and
/// before which a separator stands (or the path begins).
pub proof fn lemma_component_start(path: Seq<char>)
    ensures
        0 <= component_start(path) <= path.len(),
        forall|i: int| component_start(path) <= i < path.len() ==> !is_separator(#[trigger] path[i]),
        component_start(path) > 0 ==> is_separator(path[component_start(path) - 1]),
    decreases path.len(),
{
    if path.len() > 0 && !is_separator(path.last()) {
        let front = path.drop_last();
        lemma_component_start(front);
        assert forall|i: int| component_start(path) <= i < path.len() implies !is_separator(
            #[trigger] path[i],
        ) by {
            if i < front.len() {
                assert(path[i] == front[i]);
            }
        }
    }
}

/// A final component never holds a separator.
pub proof fn lemma_final_component_has_no_separator(path: Seq<char>)
    ensures
        forall|i: int|
            0 <= i < final_component(path).len() ==> !is_separator(
                #[trigger] final_component(path)[i],
            ),
{
    lemma_component_start(path);
}

/// A display name never holds a separator.
pub proof fn lemma_display_name_has_no_separator(path: Seq<char>, is_directory: bool)
    ensures
        forall|i: int|
            0 <= i < display_name(path, is_directory).len() ==> !is_separator(
                #[trigger] display_name(path, is_directory)[i],
            ),
{
    lemma_final_component_has_no_separator(path);
    let component = final_component(path);
    assert forall|i: int| 0 <= i < display_name(path, is_directory).len() implies !is_separator(
        #[trigger] display_name(path, is_directory)[i],
    ) by {
        if is_directory && 0 < i <= component.len() {
            assert(display_name(path, is_directory)[i] == component[i - 1]);
        }
    }
}

/// The display name of the entry at `path`, or `ListingError::Path` where the
/// path has no final component.
pub fn ceil_path(path: &str, is_directory: bool) -> (shown: Result<String, ListingError>)
    ensures
        match shown {
            Ok(name) => has_final_component(path@) && name@ == display_name(path@, is_directory),
            Err(e) => !has_final_component(path@) && e@ == ListingErrorView::Path(path@),
        },
{
    let n: usize = path.unicode_len();
    let mut rest = path.chars();
    let mut seen: usize = 0;
    let mut start: usize = 0;
    loop
        invariant
            n == path@.len(),
            seen <= n,
            rest.remaining() == path@.skip(seen as int),
            start == component_start(path@.take(seen as int)),
        ensures
            seen == n,
        decreases n - seen,
    {
        match rest.next() {
            Some(c) => {
                assert(c == path@[seen as int]);
                assert(path@.take(seen + 1).drop_last() == path@.take(seen as int));
                seen = seen + 1;
                if c == '/' {
                    start = seen;
                }
            },
            None => {
                assert(path@.skip(seen as int).len() == 0);
                break ;
            },
        }
    }
    assert(path@.take(seen as int) == path@);
    proof {
        lemma_component_start(path@);
    }
    if start == n {
        return Err(ListingError::Path(path.to_owned()));
    }
    let component = path.substring_char(start, n);
    if is_directory {
        proof {
            reveal_strlit("[");
            reveal_strlit("]");
        }
        let name = String::from_str("[").concat(component).concat("]");
        assert(name@ == display_name(path@, is_directory));
        Ok(name)
    } else {
        Ok(component.to_owned())
    }
}

/// The display names of the entries, in their order.
pub open spec fn display_names(entries: Seq<EntryView>) -> Seq<Seq<char>> {
    Seq::new(entries.len(), |i: int| display_name(entries[i].path, entries[i].is_directory))
}

/// The place of the first entry whose path has no final component; the
/// number of entries if every path has one.
pub open spec fn first_unnamed(entries: Seq<EntryView>) -> int
    decreases entries.len(),
{
    if entries.len() == 0 {
        0
    } else if !has_final_component(entries[0].path) {
        0
    } else {
        1 + first_unnamed(entries.drop_first())
    }
}

/// The display names of the entries, or the error of the first entry that
/// has none: one entry without a name fails the whole listing.
pub open spec fn formatted(entries: Seq<EntryView>) -> Result<Seq<Seq<char>>, ListingErrorView> {
    if first_unnamed(entries) == entries.len() {
        Ok(display_names(entries))
    } else {
        Err(ListingErrorView::Path(entries[first_unnamed(entries)].path))
    }
}

/// `first_unnamed` is the place of an entry without a name before which every
/// entry has one, or the number of entries.
pub proof fn lemma_first_unnamed(entries: Seq<EntryView>)
    ensures
        0 <= first_unnamed(entries) <= entries.len(),
        forall|i: int|
            0 <= i < first_unnamed(entries) ==> has_final_component(#[trigger] entries[i].path),
        first_unnamed(entries) < entries.len() ==> !has_final_component(
            entries[first_unnamed(entries)].path,
        ),
    decreases entries.len(),
{
    if entries.len() > 0 && has_final_component(entries[0].path) {
        let rest = entries.drop_first();
        lemma_first_unnamed(rest);
        assert forall|i: int| 0 <= i < first_unnamed(entries) implies has_final_component(
            #[trigger] entries[i].path,
        ) by {
            if i > 0 {
                assert(entries[i] == rest[i - 1]);
            }
        }
        if first_unnamed(rest) < rest.len() {
            assert(rest[first_unnamed(rest)] == entries[first_unnamed(rest) + 1]);
        }
    }
}

/// The display names of the entries, in their order, or the error of the
/// first entry whose path has no final component.
pub fn format_entries(entries: &Vec<Entry>) -> (names: Result<Vec<String>, ListingError>)
    ensures
        match names {
            Ok(names) => formatted(entries.deep_view()) == Ok::<
                Seq<Seq<char>>,
                ListingErrorView,
            >(names.deep_view()),
            Err(e) => formatted(entries.deep_view()) == Err::<Seq<Seq<char>>, ListingErrorView>(e@),
        },
{
    let ghost all = entries.deep_view();
    let mut names: Vec<String> = Vec::new();
    let mut i: usize = 0;
    proof {
        lemma_first_unnamed(all);
    }
    while i < entries.len()
        invariant
            i <= entries.len(),
            all == entries.deep_view(),
            i <= first_unnamed(all) <= all.len(),
            first_unnamed(all) < all.len() ==> !has_final_component(all[first_unnamed(all)].path),
            forall|k: int| 0 <= k < first_unnamed(all) ==> has_final_component(#[trigger] all[k].path),
            names.deep_view() == display_names(all.take(i as int)),
        decreases entries.len() - i,
    {
        assert(all[i as int] == entries[i as int]@);
        let ghost before = names.deep_view();
        match ceil_path(entries[i].path.as_str(), entries[i].is_directory) {
            Ok(name) => {
                names.push(name);
                assert(names.deep_view() == before.push(name@));
            },
            Err(e) => {
                assert(!has_final_component(all[i as int].path));
                assert(first_unnamed(all) == i);
                return Err(e);
            },
        }
        i = i + 1;
    }
    assert(all.take(i as int) == all);
    Ok(names)
}

} // verus!
