//! The order of the plain listing: names ascending, character by character.

use vstd::prelude::*;
use vstd::relations::{sorted_by, total_ordering};
use vstd::std_specs::iter::IteratorSpec;

verus! {

/// Whether `a` comes before `b`, or is `b`, in lexicographic order: at the
/// first place where the two differ the character of `a` has the smaller
/// code, or `a` ends there.
pub open spec fn lex_le(a: Seq<char>, b: Seq<char>) -> bool
    decreases a.len(),
{
    if a.len() == 0 {
        true
    } else if b.len() == 0 {
        false
    } else if a[0] != b[0] {
        a[0] < b[0]
    } else {
        lex_le(a.drop_first(), b.drop_first())
    }
}

/// `lex_le` as a relation, for `sorted_by`.
pub open spec fn name_order() -> spec_fn(Seq<char>, Seq<char>) -> bool {
    |a: Seq<char>, b: Seq<char>| lex_le(a, b)
}

/// Whether `lines` is `names` in ascending order: it holds the same names,
/// each as often as `names` does, and none before a smaller one.
pub open spec fn is_sorted_listing(lines: Seq<Seq<char>>, names: Seq<Seq<char>>) -> bool {
    sorted_by(lines, name_order()) && lines.to_multiset() == names.to_multiset()
}

proof fn lemma_lex_le_reflexive(a: Seq<char>)
    ensures
        lex_le(a, a),
    decreases a.len(),
{
    if a.len() > 0 {
        lemma_lex_le_reflexive(a.drop_first());
    }
}

proof fn lemma_lex_le_antisymmetric(a: Seq<char>, b: Seq<char>)
    requires
        lex_le(a, b),
        lex_le(b, a),
    ensures
        a == b,
    decreases a.len(),
{
    if a.len() > 0 && b.len() > 0 {
        lemma_lex_le_antisymmetric(a.drop_first(), b.drop_first());
        assert(a == seq![a[0]] + a.drop_first());
        assert(b == seq![b[0]] + b.drop_first());
    } else {
        assert(a =~= b);
    }
}

proof fn lemma_lex_le_transitive(a: Seq<char>, b: Seq<char>, c: Seq<char>)
    requires
        lex_le(a, b),
        lex_le(b, c),
    ensures
        lex_le(a, c),
    decreases a.len(),
{
    if a.len() > 0 && b.len() > 0 && c.len() > 0 && a[0] == b[0] && b[0] == c[0] {
        lemma_lex_le_transitive(a.drop_first(), b.drop_first(), c.drop_first());
    }
}

proof fn lemma_lex_le_connected(a: Seq<char>, b: Seq<char>)
    ensures
        lex_le(a, b) || lex_le(b, a),
    decreases a.len(),
{
    if a.len() > 0 && b.len() > 0 && a[0] == b[0] {
        lemma_lex_le_connected(a.drop_first(), b.drop_first());
    }
}

/// The names in ascending lexicographic order.
pub open spec fn sorted_names(names: Seq<Seq<char>>) -> Seq<Seq<char>> {
    names.sort_by(name_order())
}

/// The lexicographic order is a total order: of two names one comes first,
/// and only equal names come before each other.
pub proof fn lemma_name_order_total()
    ensures
        total_ordering(name_order()),
{
    let leq = name_order();
    assert forall|a: Seq<char>| #[trigger] leq(a, a) by {
        lemma_lex_le_reflexive(a);
    }
    assert forall|a: Seq<char>, b: Seq<char>| #[trigger] leq(a, b) && #[trigger] leq(b, a) implies a
        == b by {
        lemma_lex_le_antisymmetric(a, b);
    }
    assert forall|a: Seq<char>, b: Seq<char>, c: Seq<char>| #[trigger]
        leq(a, b) && #[trigger] leq(b, c) implies leq(a, c) by {
        lemma_lex_le_transitive(a, b, c);
    }
    assert forall|a: Seq<char>, b: Seq<char>| #[trigger] leq(a, b) || #[trigger] leq(b, a) by {
        lemma_lex_le_connected(a, b);
    }
}

/// There is one sorted listing of given names: any two are the same sequence,
/// and it is the names sorted by the lexicographic order.
pub proof fn lemma_sorted_listing_unique(
    first: Seq<Seq<char>>,
    second: Seq<Seq<char>>,
    names: Seq<Seq<char>>,
)
    requires
        is_sorted_listing(first, names),
        is_sorted_listing(second, names),
    ensures
        first == second,
        first == sorted_names(names),
{
    lemma_name_order_total();
    vstd::seq_lib::lemma_sorted_unique(first, second, name_order());
    names.lemma_sort_by_ensures(name_order());
    vstd::seq_lib::lemma_sorted_unique(first, sorted_names(names), name_order());
}

/// `sorted_names` is the sorted listing of the names.
pub proof fn lemma_sorted_names(names: Seq<Seq<char>>)
    ensures
        is_sorted_listing(sorted_names(names), names),
{
    lemma_name_order_total();
    names.lemma_sort_by_ensures(name_order());
}

/// Whether `a` comes before `b`, or is `b`, in lexicographic order.
pub fn name_le(a: &str, b: &str) -> (le: bool)
    ensures
        le == lex_le(a@, b@),
{
    let mut left = a.chars();
    let mut right = b.chars();
    let ghost mut at: int = 0;
    loop
        invariant
            0 <= at <= a@.len(),
            at <= b@.len(),
            left.remaining() == a@.skip(at),
            right.remaining() == b@.skip(at),
            lex_le(a@, b@) == lex_le(a@.skip(at), b@.skip(at)),
        decreases a@.len() - at,
    {
        let ghost a_rest = a@.skip(at);
        let ghost b_rest = b@.skip(at);
        match left.next() {
            None => {
                return true;
            },
            Some(x) => {
                match right.next() {
                    None => {
                        return false;
                    },
                    Some(y) => {
                        if x != y {
                            return x < y;
                        }
                        proof {
                            assert(a_rest.drop_first() == a@.skip(at + 1));
                            assert(b_rest.drop_first() == b@.skip(at + 1));
                            at = at + 1;
                        }
                    },
                }
            },
        }
    }
}

/// The names in ascending lexicographic order.
pub fn sort_names(names: Vec<String>) -> (sorted: Vec<String>)
    ensures
        is_sorted_listing(sorted.deep_view(), names.deep_view()),
        sorted.deep_view() == sorted_names(names.deep_view()),
{
    let ghost all = names.deep_view();
    let mut rest = names;
    let mut sorted: Vec<String> = Vec::new();
    assert(sorted.deep_view().to_multiset().add(rest.deep_view().to_multiset())
        == all.to_multiset()) by {
        broadcast use vstd::multiset::group_multiset_axioms;

        assert(sorted.deep_view() == Seq::<Seq<char>>::empty());
        sorted.deep_view().to_multiset_ensures();
    }
    while rest.len() > 0
        invariant
            sorted_by(sorted.deep_view(), name_order()),
            sorted.deep_view().to_multiset().add(rest.deep_view().to_multiset())
                == all.to_multiset(),
        decreases rest.len(),
    {
        let ghost rest_before = rest.deep_view();
        let ghost sorted_before = sorted.deep_view();
        let name = rest.pop().unwrap();
        let mut at: usize = sorted.len();
        while at > 0 && !name_le(sorted[at - 1].as_str(), name.as_str())
            invariant
                at <= sorted.len(),
                sorted.deep_view() == sorted_before,
                forall|j: int| at <= j < sorted.len() ==> lex_le(name@, #[trigger] sorted_before[j]),
            decreases at,
        {
            proof {
                lemma_lex_le_connected(name@, sorted_before[at - 1]);
            }
            at = at - 1;
        }
        sorted.insert(at, name);
        proof {
            let now = sorted.deep_view();
            assert(now == sorted_before.insert(at as int, name@));
            assert(rest.deep_view() == rest_before.drop_last());
            assert(rest_before == rest.deep_view().push(name@));
            vstd::seq_lib::to_multiset_build(rest.deep_view(), name@);
            vstd::seq_lib::to_multiset_insert(sorted_before, at as int, name@);
            assert(now.to_multiset().add(rest.deep_view().to_multiset()) == all.to_multiset()) by {
                broadcast use vstd::multiset::group_multiset_axioms;

                assert(now.to_multiset().add(rest.deep_view().to_multiset())
                    =~= sorted_before.to_multiset().add(rest_before.to_multiset()));
            }
            assert forall|i: int, j: int| 0 <= i < j < now.len() implies #[trigger] name_order()(
                now[i],
                now[j],
            ) by {
                if j < at {
                    assert(name_order()(sorted_before[i], sorted_before[j]));
                } else if j == at {
                    assert(i <= at - 1);
                    if i < at - 1 {
                        assert(name_order()(sorted_before[i], sorted_before[at - 1]));
                    } else {
                        lemma_lex_le_reflexive(sorted_before[i]);
                    }
                    lemma_lex_le_transitive(sorted_before[i], sorted_before[at - 1], name@);
                } else if i < at {
                    assert(name_order()(sorted_before[i], sorted_before[j - 1]));
                } else if i == at {
                    assert(lex_le(name@, sorted_before[j - 1]));
                } else {
                    assert(name_order()(sorted_before[i - 1], sorted_before[j - 1]));
                }
            }
        }
    }
    assert(sorted.deep_view().to_multiset() == all.to_multiset()) by {
        broadcast use vstd::multiset::group_multiset_axioms;

        assert(rest.deep_view() == Seq::<Seq<char>>::empty());
        rest.deep_view().to_multiset_ensures();
        assert(sorted.deep_view().to_multiset().add(rest.deep_view().to_multiset())
            =~= sorted.deep_view().to_multiset());
    }
    proof {
        lemma_sorted_listing_unique(sorted.deep_view(), sorted.deep_view(), all);
    }
    sorted
}

} // verus!
