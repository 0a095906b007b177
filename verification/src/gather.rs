//! Sequences put one after another, and what they hold when their order
//! changes.

use vstd::prelude::*;
use vstd::seq_lib::lemma_multiset_commutative;

verus! {

/// The first `upto` of the parts, one after another.
pub open spec fn gathered<T>(parts: Seq<Seq<T>>, upto: int) -> Seq<T>
    decreases upto,
{
    if upto <= 0 {
        Seq::empty()
    } else {
        gathered(parts, upto - 1) + parts[upto - 1]
    }
}

/// `order` holds each index below `n` once.
pub open spec fn rearranges(order: Seq<int>, n: nat) -> bool {
    &&& order.len() == n
    &&& forall|i: int| 0 <= i < n ==> 0 <= #[trigger] order[i] < n
    &&& forall|i: int, j: int| 0 <= i < j < n ==> #[trigger] order[i] != #[trigger] order[j]
}

/// `b` holds the items of `a` in the order that `order` gives: the item of
/// `b` at an index is the item of `a` at the index that `order` holds there.
pub open spec fn rearranged<T>(a: Seq<T>, b: Seq<T>, order: Seq<int>) -> bool {
    &&& a.len() == b.len()
    &&& rearranges(order, a.len())
    &&& forall|i: int| 0 <= i < b.len() ==> #[trigger] b[i] == a[order[i]]
}

/// Items in another order are the same items, each as often.
pub proof fn lemma_rearranged<T>(a: Seq<T>, b: Seq<T>, order: Seq<int>)
    requires
        rearranged(a, b, order),
    ensures
        a.to_multiset() == b.to_multiset(),
    decreases b.len(),
{
    broadcast use vstd::multiset::group_multiset_axioms;

    a.to_multiset_ensures();
    b.to_multiset_ensures();
    if b.len() == 0 {
        assert(a =~= b);
    } else {
        let n = b.len() as int;
        let k = order[n - 1];
        let fewer = a.remove(k);
        let front = b.drop_last();
        let moved = Seq::new(
            (n - 1) as nat,
            |i: int|
                if order[i] > k {
                    order[i] - 1
                } else {
                    order[i]
                },
        );
        assert forall|i: int| 0 <= i < n - 1 implies 0 <= #[trigger] moved[i] < n - 1 && front[i]
            == fewer[moved[i]] by {
            assert(order[i] != order[n - 1]);
            assert(b[i] == a[order[i]]);
        }
        assert forall|i: int, j: int| 0 <= i < j < n - 1 implies #[trigger] moved[i]
            != #[trigger] moved[j] by {
            assert(order[i] != order[j]);
            assert(order[i] != order[n - 1]);
            assert(order[j] != order[n - 1]);
        }
        lemma_rearranged(fewer, front, moved);
        assert(front =~= b.remove(n - 1));
        assert(b[n - 1] == a[k]);
        assert(fewer.to_multiset() =~= a.to_multiset().remove(a[k]));
        assert(front.to_multiset() =~= b.to_multiset().remove(a[k]));
        assert(a.contains(a[k]));
        assert(b.contains(b[n - 1]));
        assert(a.to_multiset() =~= fewer.to_multiset().insert(a[k]));
        assert(b.to_multiset() =~= front.to_multiset().insert(a[k]));
    }
}

/// What is gathered of the first parts does not depend on the later ones.
pub proof fn lemma_gathered_prefix<T>(a: Seq<Seq<T>>, b: Seq<Seq<T>>, upto: int)
    requires
        upto <= a.len(),
        upto <= b.len(),
        forall|i: int| 0 <= i < upto ==> a[i] == b[i],
    ensures
        gathered(a, upto) == gathered(b, upto),
    decreases upto,
{
    if upto > 0 {
        lemma_gathered_prefix(a, b, upto - 1);
    }
}

/// All parts together hold what one of them holds and what the others hold
/// together.
pub proof fn lemma_gathered_without<T>(parts: Seq<Seq<T>>, k: int)
    requires
        0 <= k < parts.len(),
    ensures
        gathered(parts, parts.len() as int).to_multiset() == gathered(
            parts.remove(k),
            parts.len() - 1,
        ).to_multiset().add(parts[k].to_multiset()),
    decreases parts.len(),
{
    broadcast use vstd::multiset::group_multiset_axioms;

    let n = parts.len() as int;
    let front = parts.drop_last();
    let fewer = parts.remove(k);
    lemma_gathered_prefix(parts, front, n - 1);
    lemma_multiset_commutative(gathered(parts, n - 1), parts[n - 1]);
    if k == n - 1 {
        assert(fewer =~= front);
    } else {
        lemma_gathered_without(front, k);
        assert(front.remove(k) =~= fewer.drop_last());
        lemma_gathered_prefix(fewer, fewer.drop_last(), n - 2);
        assert(fewer[n - 2] == parts[n - 1]);
        lemma_multiset_commutative(gathered(fewer, n - 2), fewer[n - 2]);
        assert(gathered(parts, n).to_multiset() =~= gathered(fewer, n - 1).to_multiset().add(
            parts[k].to_multiset(),
        ));
    }
}

/// Parts gathered in another order hold the same items, each as often.
pub proof fn lemma_gathered_rearranged<T>(a: Seq<Seq<T>>, b: Seq<Seq<T>>)
    requires
        a.to_multiset() == b.to_multiset(),
    ensures
        a.len() == b.len(),
        gathered(a, a.len() as int).to_multiset() == gathered(b, b.len() as int).to_multiset(),
    decreases b.len(),
{
    broadcast use vstd::multiset::group_multiset_axioms;

    a.to_multiset_ensures();
    b.to_multiset_ensures();
    if b.len() > 0 {
        let n = b.len() as int;
        let last = b[n - 1];
        assert(b.contains(last));
        assert(b.to_multiset().count(last) > 0);
        assert(a.to_multiset().count(last) > 0);
        assert(a.contains(last));
        let k = choose|k: int| 0 <= k < a.len() && a[k] == last;
        assert(a.remove(k).to_multiset() =~= a.to_multiset().remove(last));
        assert(b.remove(n - 1).to_multiset() =~= b.to_multiset().remove(last));
        lemma_gathered_rearranged(a.remove(k), b.remove(n - 1));
        lemma_gathered_without(a, k);
        lemma_gathered_without(b, n - 1);
    }
}

} // verus!
