//! Directory traversal: the order in which the entries below a directory are
//! visited. The walker never touches the file system: it names the directory
//! whose entries it needs next, and its host supplies them.

use crate::entry::{Entry, EntryView};
use crate::tree::{lemma_preorder_concat, lemma_preorder_split, preorder, roots, Tree};
use vstd::prelude::*;

verus! {

/// A traversal in progress.
pub struct Walker {
    recursive: bool,
    awaiting: Option<String>,
    /// The entries that are known and not yet visited; the next one is last.
    pending: Vec<Entry>,
    visited: Vec<Entry>,
}

/// A `Walker` as contracts see it.
pub struct WalkerView {
    /// Whether the walk descends into directories.
    pub recursive: bool,
    /// The directory whose entries the host is to supply, if any.
    pub awaiting: Option<Seq<char>>,
    /// The entries that are known and not yet visited; the next one is first.
    pub todo: Seq<EntryView>,
    /// The entries visited so far, in the order of the visits.
    pub visited: Seq<EntryView>,
}

/// The state before anything was read: the walk awaits the entries of
/// `target`.
pub open spec fn started(target: Seq<char>, recursive: bool) -> WalkerView {
    WalkerView { recursive, awaiting: Some(target), todo: Seq::empty(), visited: Seq::empty() }
}

/// Visits the entries of `todo` in their order, up to and including the first
/// directory of a recursive walk, whose entries are then awaited.
pub open spec fn settled(recursive: bool, todo: Seq<EntryView>, visited: Seq<EntryView>) -> WalkerView
    decreases todo.len(),
{
    if todo.len() == 0 {
        WalkerView { recursive, awaiting: None, todo, visited }
    } else if recursive && todo[0].is_directory {
        WalkerView {
            recursive,
            awaiting: Some(todo[0].path),
            todo: todo.drop_first(),
            visited: visited.push(todo[0]),
        }
    } else {
        settled(recursive, todo.drop_first(), visited.push(todo[0]))
    }
}

/// The state after the host supplied `listing` for the awaited directory: its
/// entries are visited before all that was left to do. A walk that awaits
/// nothing stays as it is.
pub open spec fn supplied(walk: WalkerView, listing: Seq<EntryView>) -> WalkerView {
    if walk.awaiting is Some {
        settled(walk.recursive, listing + walk.todo, walk.visited)
    } else {
        walk
    }
}

impl View for Walker {
    type V = WalkerView;

    closed spec fn view(&self) -> WalkerView {
        WalkerView {
            recursive: self.recursive,
            awaiting: match self.awaiting {
                Some(path) => Some(path@),
                None => None,
            },
            todo: self.pending.deep_view().reverse(),
            visited: self.visited.deep_view(),
        }
    }
}

impl Walker {
    /// A walk of the directory `target`, which descends into the directories
    /// it meets if `recursive` is set.
    pub fn new(target: String, recursive: bool) -> (walker: Walker)
        ensures
            walker@ == started(target@, recursive),
    {
        let walker = Walker {
            recursive,
            awaiting: Some(target),
            pending: Vec::new(),
            visited: Vec::new(),
        };
        assert(walker@.todo == Seq::<EntryView>::empty());
        assert(walker@.visited == Seq::<EntryView>::empty());
        walker
    }

    /// The directory whose entries the host is to supply next; `None` once
    /// the walk is complete.
    pub fn awaiting(&self) -> (directory: Option<&str>)
        ensures
            match directory {
                Some(path) => self@.awaiting == Some(path@),
                None => self@.awaiting is None,
            },
    {
        match &self.awaiting {
            Some(path) => Some(path.as_str()),
            None => None,
        }
    }

    /// Takes the entries of the awaited directory, in the order in which the
    /// directory was enumerated, and visits what can be visited without
    /// reading another directory.
    pub fn supply(&mut self, listing: Vec<Entry>)
        ensures
            final(self)@ == supplied(old(self)@, listing.deep_view()),
    {
        if self.awaiting.is_none() {
            return ;
        }
        self.awaiting = None;
        let ghost todo_before = self@.todo;
        let mut listing = listing;
        let ghost given = listing.deep_view();
        while listing.len() > 0
            invariant
                self.recursive == old(self).recursive,
                self.awaiting is None,
                self.visited == old(self).visited,
                listing.deep_view() + self.pending.deep_view().reverse() == given + todo_before,
            decreases listing.len(),
        {
            let ghost listing_before = listing.deep_view();
            let ghost pending_before = self.pending.deep_view();
            let entry = listing.pop().unwrap();
            self.pending.push(entry);
            assert(listing.deep_view() == listing_before.drop_last());
            assert(self.pending.deep_view() == pending_before.push(entry@));
            assert(listing.deep_view() + self.pending.deep_view().reverse() == listing_before
                + pending_before.reverse());
        }
        assert(self.pending.deep_view().reverse() == given + todo_before);
        let ghost goal = settled(self.recursive, given + todo_before, self.visited.deep_view());
        assert(goal == supplied(old(self)@, given));
        loop
            invariant_except_break
                self.awaiting is None,
                settled(self.recursive, self.pending.deep_view().reverse(), self.visited.deep_view())
                    == goal,
            invariant
                self.recursive == old(self).recursive,
            ensures
                self@ == goal,
            decreases self.pending.len(),
        {
            let ghost pending_before = self.pending.deep_view();
            let ghost visited_before = self.visited.deep_view();
            match self.pending.pop() {
                None => {
                    break ;
                },
                Some(entry) => {
                    assert(self.pending.deep_view().reverse() == pending_before.reverse().drop_first());
                    assert(pending_before.reverse()[0] == entry@);
                    if self.recursive && entry.is_directory {
                        self.awaiting = Some(entry.path.clone());
                        self.visited.push(entry);
                        assert(self.visited.deep_view() == visited_before.push(entry@));
                        break ;
                    }
                    self.visited.push(entry);
                    assert(self.visited.deep_view() == visited_before.push(entry@));
                },
            }
        }
    }

    /// Whether the walk is complete: every entry was visited and no directory
    /// is awaited.
    pub fn is_complete(&self) -> (complete: bool)
        ensures
            complete == (self@.awaiting is None),
    {
        self.awaiting.is_none()
    }

    /// The entries visited so far, in the order of the visits.
    pub fn visited(&self) -> (entries: &Vec<Entry>)
        ensures
            entries.deep_view() == self@.visited,
    {
        &self.visited
    }
}

/// The place of the first directory among `entries`; their number if there
/// is none.
pub open spec fn first_directory(entries: Seq<EntryView>) -> int
    decreases entries.len(),
{
    if entries.len() == 0 || entries[0].is_directory {
        0
    } else {
        1 + first_directory(entries.drop_first())
    }
}

/// `first_directory` is the place of a directory before which there is none,
/// or the number of the entries.
pub proof fn lemma_first_directory(entries: Seq<EntryView>)
    ensures
        0 <= first_directory(entries) <= entries.len(),
        forall|i: int| 0 <= i < first_directory(entries) ==> !(#[trigger] entries[i]).is_directory,
        first_directory(entries) < entries.len() ==> entries[first_directory(
            entries,
        )].is_directory,
    decreases entries.len(),
{
    if entries.len() > 0 && !entries[0].is_directory {
        let rest = entries.drop_first();
        lemma_first_directory(rest);
        assert forall|i: int| 0 <= i < first_directory(entries) implies !(
        #[trigger] entries[i]).is_directory by {
            if i > 0 {
                assert(entries[i] == rest[i - 1]);
            }
        }
        if first_directory(rest) < rest.len() {
            assert(rest[first_directory(rest)] == entries[first_directory(rest) + 1]);
        }
    }
}

/// A walk that does not descend visits all that is to do, in its order, and
/// is complete.
pub proof fn lemma_settled_flat(todo: Seq<EntryView>, visited: Seq<EntryView>)
    ensures
        settled(false, todo, visited) == (WalkerView {
            recursive: false,
            awaiting: None,
            todo: Seq::empty(),
            visited: visited + todo,
        }),
    decreases todo.len(),
{
    if todo.len() == 0 {
        assert(visited + todo == visited);
        assert(todo == Seq::<EntryView>::empty());
    } else {
        lemma_settled_flat(todo.drop_first(), visited.push(todo[0]));
        assert(visited.push(todo[0]) + todo.drop_first() == visited + todo);
    }
}

/// A walk that descends visits what is to do up to the first directory, and
/// awaits the entries of that one; without a directory it visits all and is
/// complete.
pub proof fn lemma_settled_recursive(todo: Seq<EntryView>, visited: Seq<EntryView>)
    ensures
        ({
            let at = first_directory(todo);
            settled(true, todo, visited) == if at < todo.len() {
                WalkerView {
                    recursive: true,
                    awaiting: Some(todo[at].path),
                    todo: todo.skip(at + 1),
                    visited: visited + todo.take(at + 1),
                }
            } else {
                WalkerView {
                    recursive: true,
                    awaiting: None,
                    todo: Seq::empty(),
                    visited: visited + todo,
                }
            }
        }),
    decreases todo.len(),
{
    lemma_first_directory(todo);
    if todo.len() == 0 {
        assert(visited + todo == visited);
        assert(todo == Seq::<EntryView>::empty());
    } else if todo[0].is_directory {
        assert(todo.skip(1) == todo.drop_first());
        assert(visited + todo.take(1) == visited.push(todo[0]));
    } else {
        let rest = todo.drop_first();
        let at = first_directory(rest);
        lemma_settled_recursive(rest, visited.push(todo[0]));
        lemma_first_directory(rest);
        assert(visited.push(todo[0]) + rest == visited + todo);
        if at < rest.len() {
            assert(rest[at] == todo[at + 1]);
            assert(rest.skip(at + 1) == todo.skip(at + 2));
            assert(visited.push(todo[0]) + rest.take(at + 1) == visited + todo.take(at + 2));
        }
    }
}

/// The state in which a recursive walk ends whose host answers every request
/// from the trees: the walk awaits a directory that holds `kids`, `rest` are
/// the trees of the entries that it has still to do, and whenever it asks for
/// a directory it is given the roots of what that directory holds.
pub open spec fn walked(walk: WalkerView, kids: Seq<Tree>, rest: Seq<Tree>) -> WalkerView
    decreases preorder(kids + rest).len(),
    via walked_ends
{
    let plan = kids + rest;
    let at = first_directory(roots(plan));
    let next = supplied(walk, roots(kids));
    if 0 <= at < plan.len() {
        walked(next, plan[at].children, plan.skip(at + 1))
    } else {
        next
    }
}

#[via_fn]
proof fn walked_ends(walk: WalkerView, kids: Seq<Tree>, rest: Seq<Tree>) {
    let plan = kids + rest;
    let at = first_directory(roots(plan));
    if 0 <= at < plan.len() {
        lemma_first_directory(roots(plan));
        lemma_preorder_split(plan, at);
        lemma_preorder_concat(plan[at].children, plan.skip(at + 1));
    }
}

/// Trees without a directory at the top are listed by their roots.
proof fn lemma_preorder_of_files(forest: Seq<Tree>)
    requires
        forall|i: int| 0 <= i < forest.len() ==> !(#[trigger] forest[i]).entry.is_directory,
    ensures
        preorder(forest) == roots(forest),
    decreases forest.len(),
{
    if forest.len() > 0 {
        let rest = forest.drop_first();
        assert forall|i: int| 0 <= i < rest.len() implies !(#[trigger] rest[i]).entry.is_directory by {
            assert(rest[i] == forest[i + 1]);
        }
        lemma_preorder_of_files(rest);
        assert(preorder(forest) == seq![forest[0].entry] + roots(rest));
    }
    assert(preorder(forest) =~= roots(forest));
}

/// The request that follows an answer from the trees is for the first
/// directory among what is then to do, in the order of the trees; its entries
/// are what the next answer of `walked` gives.
pub proof fn lemma_supplied_awaits_first_directory(
    walk: WalkerView,
    kids: Seq<Tree>,
    rest: Seq<Tree>,
)
    requires
        walk.recursive,
        walk.awaiting is Some,
        walk.todo == roots(rest),
    ensures
        ({
            let plan = kids + rest;
            let at = first_directory(roots(plan));
            let next = supplied(walk, roots(kids));
            &&& next.recursive
            &&& if at < plan.len() {
                &&& plan[at].entry.is_directory
                &&& next.awaiting == Some(plan[at].entry.path)
                &&& next.todo == roots(plan.skip(at + 1))
                &&& next.visited == walk.visited + roots(plan.take(at + 1))
            } else {
                &&& next.awaiting is None
                &&& next.todo.len() == 0
                &&& next.visited == walk.visited + roots(plan)
            }
        }),
{
    let plan = kids + rest;
    let at = first_directory(roots(plan));
    assert(roots(kids) + walk.todo == roots(plan));
    lemma_settled_recursive(roots(plan), walk.visited);
    lemma_first_directory(roots(plan));
    if at < plan.len() {
        assert(roots(plan).skip(at + 1) == roots(plan.skip(at + 1)));
        assert(roots(plan).take(at + 1) == roots(plan.take(at + 1)));
    }
}

/// A recursive walk whose host answers from the trees visits their entries
/// in pre-order: every entry once, a directory before all that it holds.
pub proof fn lemma_walk_is_preorder(walk: WalkerView, kids: Seq<Tree>, rest: Seq<Tree>)
    requires
        walk.recursive,
        walk.awaiting is Some,
        walk.todo == roots(rest),
    ensures
        walked(walk, kids, rest) == (WalkerView {
            recursive: true,
            awaiting: None,
            todo: Seq::empty(),
            visited: walk.visited + preorder(kids + rest),
        }),
    decreases preorder(kids + rest).len(),
{
    let plan = kids + rest;
    let at = first_directory(roots(plan));
    let next = supplied(walk, roots(kids));
    lemma_supplied_awaits_first_directory(walk, kids, rest);
    lemma_first_directory(roots(plan));
    if at < plan.len() {
        let front = plan.take(at);
        lemma_preorder_split(plan, at);
        lemma_preorder_concat(plan[at].children, plan.skip(at + 1));
        assert forall|i: int| 0 <= i < front.len() implies !(#[trigger] front[i]).entry.is_directory by {
            assert(front[i].entry == roots(plan)[i]);
        }
        lemma_preorder_of_files(front);
        assert(roots(plan.take(at + 1)) == roots(front) + seq![plan[at].entry]);
        lemma_walk_is_preorder(next, plan[at].children, plan.skip(at + 1));
        assert(walked(walk, kids, rest).visited == walk.visited + preorder(plan));
    } else {
        assert forall|i: int| 0 <= i < plan.len() implies !(#[trigger] plan[i]).entry.is_directory by {
            assert(plan[i].entry == roots(plan)[i]);
        }
        lemma_preorder_of_files(plan);
        assert(next.todo == Seq::<EntryView>::empty());
    }
}

/// A recursive listing of a directory that holds `forest` visits the entries
/// of `forest` in pre-order.
pub proof fn lemma_recursive_walk(target: Seq<char>, forest: Seq<Tree>)
    ensures
        walked(started(target, true), forest, Seq::empty()).awaiting is None,
        walked(started(target, true), forest, Seq::empty()).visited == preorder(forest),
{
    assert(roots(Seq::<Tree>::empty()) == Seq::<EntryView>::empty());
    assert(forest + Seq::<Tree>::empty() == forest);
    lemma_walk_is_preorder(started(target, true), forest, Seq::empty());
    assert(Seq::<EntryView>::empty() + preorder(forest) == preorder(forest));
}

/// A listing that does not descend visits the entries of its target as they
/// were enumerated, and no others.
pub proof fn lemma_flat_walk(target: Seq<char>, listing: Seq<EntryView>)
    ensures
        supplied(started(target, false), listing) == (WalkerView {
            recursive: false,
            awaiting: None,
            todo: Seq::empty(),
            visited: listing,
        }),
{
    lemma_settled_flat(listing + Seq::<EntryView>::empty(), Seq::empty());
    assert(listing + Seq::<EntryView>::empty() == listing);
    assert(Seq::<EntryView>::empty() + listing == listing);
}

} // verus!
