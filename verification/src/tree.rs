//! Directory trees, and the order in which a recursive listing names their
//! entries. Nothing here runs: the trees are the model that the traversal is
//! held against.

use crate::entry::EntryView;
use vstd::prelude::*;

verus! {

/// An entry together with what lies below it: for a directory the trees of
/// its entries, in the order in which the directory is enumerated.
pub struct Tree {
    pub entry: EntryView,
    pub children: Seq<Tree>,
}

impl Tree {
    /// The trees of the entries that the entry holds: its children if it is a
    /// directory, none if it is not.
    pub open spec fn held(self) -> Seq<Tree> {
        if self.entry.is_directory {
            self.children
        } else {
            Seq::empty()
        }
    }
}

/// The entries at the top of the trees: what a directory that holds `forest`
/// enumerates.
pub open spec fn roots(forest: Seq<Tree>) -> Seq<EntryView> {
    Seq::new(forest.len(), |i: int| forest[i].entry)
}

/// The entries of the trees in pre-order: every entry is followed by all that
/// it holds, and only then by what comes after it in its directory.
pub open spec fn preorder(forest: Seq<Tree>) -> Seq<EntryView>
    decreases forest,
{
    if forest.len() == 0 {
        Seq::empty()
    } else {
        let below = if forest[0].entry.is_directory {
            preorder(forest[0].children)
        } else {
            Seq::empty()
        };
        seq![forest[0].entry] + below + preorder(forest.drop_first())
    }
}

/// What lies below a tree, in pre-order.
pub proof fn lemma_preorder_first(forest: Seq<Tree>)
    requires
        forest.len() > 0,
    ensures
        preorder(forest) == seq![forest[0].entry] + preorder(forest[0].held()) + preorder(
            forest.drop_first(),
        ),
{
    assert(preorder(Seq::<Tree>::empty()) == Seq::<EntryView>::empty());
}

/// The pre-order of trees one after the other is their pre-orders one after
/// the other.
pub proof fn lemma_preorder_concat(front: Seq<Tree>, back: Seq<Tree>)
    ensures
        preorder(front + back) == preorder(front) + preorder(back),
    decreases front.len(),
{
    if front.len() == 0 {
        assert(front + back == back);
    } else {
        lemma_preorder_concat(front.drop_first(), back);
        assert((front + back).drop_first() == front.drop_first() + back);
        assert((front + back)[0] == front[0]);
    }
}

/// The pre-order of trees, cut at a tree: what comes before the tree, the
/// entry of the tree, what the tree holds, what comes after the tree.
pub proof fn lemma_preorder_split(forest: Seq<Tree>, at: int)
    requires
        0 <= at < forest.len(),
    ensures
        preorder(forest) == preorder(forest.take(at)) + seq![forest[at].entry] + preorder(
            forest[at].held(),
        ) + preorder(forest.skip(at + 1)),
{
    let tail = forest.skip(at);
    lemma_preorder_first(tail);
    lemma_preorder_concat(forest.take(at), tail);
    assert(forest.take(at) + tail == forest);
    assert(tail.drop_first() == forest.skip(at + 1));
}

/// Whether `address` leads to a tree of `forest`: its first number is the
/// place of a tree among `forest`, the next the place of a tree among what
/// that one holds, and so on.
pub open spec fn is_address(forest: Seq<Tree>, address: Seq<int>) -> bool
    decreases address.len(),
{
    &&& address.len() > 0
    &&& 0 <= address[0] < forest.len()
    &&& address.len() > 1 ==> is_address(forest[address[0]].held(), address.drop_first())
}

/// The tree that `address` leads to.
pub open spec fn tree_at(forest: Seq<Tree>, address: Seq<int>) -> Tree
    decreases address.len(),
{
    if address.len() <= 1 {
        forest[address[0]]
    } else {
        tree_at(forest[address[0]].held(), address.drop_first())
    }
}

/// The place in the pre-order of `forest` of the entry that `address` leads
/// to: behind all of the trees before it, and behind the entries that hold it.
pub open spec fn place(forest: Seq<Tree>, address: Seq<int>) -> int
    decreases address.len(),
{
    if address.len() <= 1 {
        preorder(forest.take(address[0])).len() as int
    } else {
        preorder(forest.take(address[0])).len() + 1 + place(
            forest[address[0]].held(),
            address.drop_first(),
        )
    }
}

/// Every entry of the trees is named: at its place the pre-order holds the
/// entry, and the place lies among the trees that its address begins with.
pub proof fn lemma_place_names_entry(forest: Seq<Tree>, address: Seq<int>)
    requires
        is_address(forest, address),
    ensures
        preorder(forest.take(address[0])).len() <= place(forest, address) < preorder(
            forest.take(address[0] + 1),
        ).len() <= preorder(forest).len(),
        preorder(forest)[place(forest, address)] == tree_at(forest, address).entry,
    decreases address.len(),
{
    let first = address[0];
    lemma_preorder_split(forest, first);
    lemma_preorder_split(forest.take(first + 1), first);
    assert(forest.take(first + 1).take(first) == forest.take(first));
    assert(forest.take(first + 1).skip(first + 1) == Seq::<Tree>::empty());
    if address.len() > 1 {
        lemma_place_names_entry(forest[first].held(), address.drop_first());
    }
}

/// An entry is named after every entry that holds it: where an address goes
/// on below another, the other leads to a directory whose place is before.
pub proof fn lemma_directory_before_descendants(
    forest: Seq<Tree>,
    above: Seq<int>,
    below: Seq<int>,
)
    requires
        above.len() > 0,
        below.len() > 0,
        is_address(forest, above + below),
    ensures
        is_address(forest, above),
        tree_at(forest, above).entry.is_directory,
        is_address(tree_at(forest, above).children, below),
        tree_at(forest, above + below) == tree_at(tree_at(forest, above).children, below),
        place(forest, above) < place(forest, above + below),
    decreases above.len(),
{
    let whole = above + below;
    let first = above[0];
    assert(whole[0] == first);
    if above.len() == 1 {
        assert(whole.drop_first() == below);
        lemma_place_names_entry(forest[first].held(), below);
    } else {
        assert(whole.drop_first() == above.drop_first() + below);
        lemma_directory_before_descendants(forest[first].held(), above.drop_first(), below);
    }
}

/// The trees up to a place hold no more entries than the trees up to a later
/// place.
proof fn lemma_preorder_take_grows(forest: Seq<Tree>, fewer: int, more: int)
    requires
        0 <= fewer <= more <= forest.len(),
    ensures
        preorder(forest.take(fewer)).len() <= preorder(forest.take(more)).len(),
{
    lemma_preorder_concat(forest.take(fewer), forest.subrange(fewer, more));
    assert(forest.take(fewer) + forest.subrange(fewer, more) == forest.take(more));
}

/// No entry is named twice: two addresses with one place are one address.
pub proof fn lemma_place_is_injective(forest: Seq<Tree>, one: Seq<int>, other: Seq<int>)
    requires
        is_address(forest, one),
        is_address(forest, other),
        place(forest, one) == place(forest, other),
    ensures
        one == other,
    decreases one.len(),
{
    lemma_place_names_entry(forest, one);
    lemma_place_names_entry(forest, other);
    if one[0] < other[0] {
        lemma_preorder_take_grows(forest, one[0] + 1, other[0]);
    } else if other[0] < one[0] {
        lemma_preorder_take_grows(forest, other[0] + 1, one[0]);
    } else if one.len() > 1 && other.len() > 1 {
        lemma_place_is_injective(forest[one[0]].held(), one.drop_first(), other.drop_first());
        assert(one == seq![one[0]] + one.drop_first());
        assert(other == seq![other[0]] + other.drop_first());
    } else if one.len() > 1 {
        lemma_place_names_entry(forest[one[0]].held(), one.drop_first());
    } else if other.len() > 1 {
        lemma_place_names_entry(forest[other[0]].held(), other.drop_first());
    } else {
        assert(one =~= other);
    }
}

/// Nothing else is named: every place of the pre-order is the place of an
/// entry of the trees. The address of that entry is handed back.
pub proof fn lemma_every_place_is_taken(forest: Seq<Tree>, at: int) -> (address: Seq<int>)
    requires
        0 <= at < preorder(forest).len(),
    ensures
        is_address(forest, address),
        place(forest, address) == at,
    decreases preorder(forest).len(),
{
    lemma_preorder_first(forest);
    let held = forest[0].held();
    let rest = forest.drop_first();
    assert(forest.take(0) == Seq::<Tree>::empty());
    if at == 0 {
        seq![0int]
    } else if at - 1 < preorder(held).len() {
        let inner = lemma_every_place_is_taken(held, at - 1);
        let address = seq![0int] + inner;
        assert(address.drop_first() == inner);
        address
    } else {
        let shifted = lemma_every_place_is_taken(rest, at - 1 - preorder(held).len());
        let address = seq![shifted[0] + 1] + shifted.drop_first();
        assert(address.drop_first() == shifted.drop_first());
        assert(forest[address[0]] == rest[shifted[0]]);
        assert(forest.take(address[0]) == seq![forest[0]] + rest.take(shifted[0]));
        lemma_preorder_first(forest.take(address[0]));
        assert(forest.take(address[0]).drop_first() == rest.take(shifted[0]));
        address
    }
}

} // verus!
