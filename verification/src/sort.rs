//! Sorting by a key.

use vstd::multiset::Multiset;
use vstd::prelude::*;

verus! {

/// A thing with a key, and an order of the keys in which any two keys can be
/// compared.
pub trait Ranked: Sized {
    /// The type of the key.
    type Key;

    /// The key of this thing.
    spec fn key(&self) -> Self::Key;

    /// The first key is not after the second.
    spec fn le(a: Self::Key, b: Self::Key) -> bool;

    /// Of two keys one is not after the other.
    proof fn lemma_total(a: Self::Key, b: Self::Key)
        ensures
            Self::le(a, b) || Self::le(b, a),
    ;

    /// What is not after a key is not after what the key is not after.
    proof fn lemma_transitive(a: Self::Key, b: Self::Key, c: Self::Key)
        requires
            Self::le(a, b),
            Self::le(b, c),
        ensures
            Self::le(a, c),
    ;

    /// Whether the key of this thing is not after the key of the other.
    fn is_le(&self, other: &Self) -> (le: bool)
        ensures
            le == Self::le(self.key(), other.key()),
    ;
}

/// The keys of the items.
pub open spec fn keys<T: Ranked>(items: Seq<T>) -> Seq<T::Key> {
    Seq::new(items.len(), |i: int| items[i].key())
}

/// No key is after a later one.
pub open spec fn in_order<T: Ranked>(keys: Seq<T::Key>) -> bool {
    forall|i: int, j: int| 0 <= i < j < keys.len() ==> T::le(#[trigger] keys[i], #[trigger] keys[j])
}

/// No key is before a later one.
spec fn falling<T: Ranked>(keys: Seq<T::Key>) -> bool {
    forall|i: int, j: int| 0 <= i < j < keys.len() ==> T::le(#[trigger] keys[j], #[trigger] keys[i])
}

/// No key of the first is after a key of the second.
spec fn below<T: Ranked>(low: Seq<T::Key>, high: Seq<T::Key>) -> bool {
    forall|i: int, k: int|
        0 <= i < low.len() && 0 <= k < high.len() ==> T::le(#[trigger] low[i], #[trigger] high[k])
}

/// No items have no keys.
proof fn lemma_no_keys<T: Ranked>(items: Seq<T>)
    requires
        items.len() == 0,
    ensures
        keys(items) == Seq::<T::Key>::empty(),
        keys(items).to_multiset() == Multiset::<T::Key>::empty(),
{
    broadcast use vstd::multiset::group_multiset_axioms;

    let none = Seq::<T::Key>::empty();
    assert(keys(items) =~= none);
    none.to_multiset_ensures();
    assert(none.to_multiset().len() == 0);
    assert(none.to_multiset() =~= Multiset::<T::Key>::empty());
}

/// The keys of items without the last are the keys without the last, and
/// with one more they are the keys with one more.
proof fn lemma_keys_ends<T: Ranked>(items: Seq<T>, item: T)
    ensures
        keys(items.push(item)) == keys(items).push(item.key()),
        keys(items.push(item)).to_multiset() == keys(items).to_multiset().insert(item.key()),
        items.len() > 0 ==> keys(items.drop_last()) == keys(items).drop_last() && keys(
            items,
        ).to_multiset() == keys(items.drop_last()).to_multiset().insert(items.last().key()),
{
    broadcast use vstd::multiset::group_multiset_axioms;

    assert(keys(items.push(item)) =~= keys(items).push(item.key()));
    vstd::seq_lib::to_multiset_build(keys(items), item.key());
    if items.len() > 0 {
        assert(keys(items.drop_last()) =~= keys(items).drop_last());
        assert(keys(items) =~= keys(items.drop_last()).push(items.last().key()));
        vstd::seq_lib::to_multiset_build(keys(items.drop_last()), items.last().key());
    }
}

/// Moves the greater of the last items of `front` and `back` to the end of
/// `merged`; of two of one rank, that of `back`.
fn move_greatest<T: Ranked>(front: &mut Vec<T>, back: &mut Vec<T>, merged: &mut Vec<T>)
    requires
        old(front)@.len() + old(back)@.len() > 0,
        in_order::<T>(keys(old(front)@)),
        in_order::<T>(keys(old(back)@)),
        falling::<T>(keys(old(merged)@)),
        below::<T>(keys(old(front)@), keys(old(merged)@)),
        below::<T>(keys(old(back)@), keys(old(merged)@)),
    ensures
        final(front)@.len() + final(back)@.len() + 1 == old(front)@.len() + old(back)@.len(),
        in_order::<T>(keys(final(front)@)),
        in_order::<T>(keys(final(back)@)),
        falling::<T>(keys(final(merged)@)),
        below::<T>(keys(final(front)@), keys(final(merged)@)),
        below::<T>(keys(final(back)@), keys(final(merged)@)),
        keys(final(merged)@).to_multiset().add(keys(final(front)@).to_multiset()).add(
            keys(final(back)@).to_multiset(),
        ) == keys(old(merged)@).to_multiset().add(keys(old(front)@).to_multiset()).add(
            keys(old(back)@).to_multiset(),
        ),
{
    broadcast use vstd::multiset::group_multiset_axioms;

    let ghost a = keys(front@);
    let ghost b = keys(back@);
    let ghost m = keys(merged@);
    let from_back = if front.len() == 0 {
        true
    } else if back.len() == 0 {
        false
    } else {
        front[front.len() - 1].is_le(&back[back.len() - 1])
    };
    proof {
        lemma_keys_ends(front@, front@[0]);
        lemma_keys_ends(back@, back@[0]);
    }
    let item = if from_back {
        back.pop().unwrap()
    } else {
        front.pop().unwrap()
    };
    let ghost x = item.key();
    proof {
        lemma_keys_ends(merged@, item);
        T::lemma_total(x, x);
        if from_back {
            assert(x == b[b.len() - 1]);
            assert(keys(back@) == b.drop_last());
            assert forall|i: int| 0 <= i < a.len() implies T::le(#[trigger] a[i], x) by {
                if i < a.len() - 1 {
                    assert(T::le(a[i], a[a.len() - 1]));
                    T::lemma_transitive(a[i], a[a.len() - 1], x);
                }
            }
            assert forall|i: int| 0 <= i < b.len() - 1 implies T::le(#[trigger] b[i], x) by {
                assert(T::le(b[i], b[b.len() - 1]));
            }
            assert forall|k: int| 0 <= k < m.len() implies T::le(x, #[trigger] m[k]) by {
                assert(T::le(b[b.len() - 1], m[k]));
            }
        } else {
            assert(x == a[a.len() - 1]);
            assert(keys(front@) == a.drop_last());
            if b.len() > 0 {
                T::lemma_total(x, b[b.len() - 1]);
            }
            assert forall|i: int| 0 <= i < b.len() implies T::le(#[trigger] b[i], x) by {
                if i < b.len() - 1 {
                    assert(T::le(b[i], b[b.len() - 1]));
                    T::lemma_transitive(b[i], b[b.len() - 1], x);
                }
            }
            assert forall|i: int| 0 <= i < a.len() - 1 implies T::le(#[trigger] a[i], x) by {
                assert(T::le(a[i], a[a.len() - 1]));
            }
            assert forall|k: int| 0 <= k < m.len() implies T::le(x, #[trigger] m[k]) by {
                assert(T::le(a[a.len() - 1], m[k]));
            }
        }
    }
    merged.push(item);
    proof {
        let now = keys(merged@);
        assert(now == m.push(x));
        assert forall|i: int, j: int| 0 <= i < j < now.len() implies T::le(
            #[trigger] now[j],
            #[trigger] now[i],
        ) by {
            if j < m.len() {
                assert(T::le(m[j], m[i]));
            } else {
                assert(T::le(x, m[i]));
            }
        }
        assert forall|i: int, k: int|
            0 <= i < keys(front@).len() && 0 <= k < now.len() implies T::le(
            #[trigger] keys(front@)[i],
            #[trigger] now[k],
        ) by {
            assert(keys(front@)[i] == a[i]);
            if k < m.len() {
                assert(T::le(a[i], m[k]));
            }
        }
        assert forall|i: int, k: int|
            0 <= i < keys(back@).len() && 0 <= k < now.len() implies T::le(
            #[trigger] keys(back@)[i],
            #[trigger] now[k],
        ) by {
            assert(keys(back@)[i] == b[i]);
            if k < m.len() {
                assert(T::le(b[i], m[k]));
            }
        }
        assert(now.to_multiset().add(keys(front@).to_multiset()).add(keys(back@).to_multiset())
            =~= m.to_multiset().add(a.to_multiset()).add(b.to_multiset()));
    }
}

/// The items of two vectors in order as one vector in order.
fn merge<T: Ranked>(front: Vec<T>, back: Vec<T>) -> (merged: Vec<T>)
    requires
        in_order::<T>(keys(front@)),
        in_order::<T>(keys(back@)),
    ensures
        in_order::<T>(keys(merged@)),
        keys(merged@).to_multiset() == keys(front@).to_multiset().add(keys(back@).to_multiset()),
{
    broadcast use vstd::multiset::group_multiset_axioms;

    let ghost all = keys(front@).to_multiset().add(keys(back@).to_multiset());
    let mut front = front;
    let mut back = back;
    let mut down: Vec<T> = Vec::new();
    proof {
        lemma_no_keys(down@);
        assert(keys(down@).to_multiset().add(keys(front@).to_multiset()).add(
            keys(back@).to_multiset(),
        ) =~= all);
    }
    while front.len() > 0 || back.len() > 0
        invariant
            in_order::<T>(keys(front@)),
            in_order::<T>(keys(back@)),
            falling::<T>(keys(down@)),
            below::<T>(keys(front@), keys(down@)),
            below::<T>(keys(back@), keys(down@)),
            keys(down@).to_multiset().add(keys(front@).to_multiset()).add(
                keys(back@).to_multiset(),
            ) == all,
        decreases front@.len() + back@.len(),
    {
        move_greatest(&mut front, &mut back, &mut down);
    }
    proof {
        lemma_no_keys(front@);
        lemma_no_keys(back@);
        assert(keys(down@).to_multiset() =~= all);
    }
    let mut merged: Vec<T> = Vec::new();
    proof {
        lemma_no_keys(merged@);
        assert(keys(merged@).to_multiset().add(keys(down@).to_multiset()) =~= all);
    }
    while down.len() > 0
        invariant
            falling::<T>(keys(down@)),
            in_order::<T>(keys(merged@)),
            below::<T>(keys(merged@), keys(down@)),
            keys(merged@).to_multiset().add(keys(down@).to_multiset()) == all,
        decreases down@.len(),
    {
        let ghost d = keys(down@);
        let ghost m = keys(merged@);
        proof {
            lemma_keys_ends(down@, down@[0]);
        }
        let item = down.pop().unwrap();
        proof {
            lemma_keys_ends(merged@, item);
        }
        merged.push(item);
        proof {
            let x = item.key();
            let now = keys(merged@);
            assert(x == d[d.len() - 1]);
            assert(now == m.push(x));
            assert(keys(down@) == d.drop_last());
            assert forall|i: int, j: int| 0 <= i < j < now.len() implies T::le(
                #[trigger] now[i],
                #[trigger] now[j],
            ) by {
                if j < m.len() {
                    assert(T::le(m[i], m[j]));
                } else {
                    assert(T::le(m[i], d[d.len() - 1]));
                }
            }
            assert forall|i: int, k: int|
                0 <= i < now.len() && 0 <= k < keys(down@).len() implies T::le(
                #[trigger] now[i],
                #[trigger] keys(down@)[k],
            ) by {
                assert(keys(down@)[k] == d[k]);
                if i < m.len() {
                    assert(T::le(m[i], d[k]));
                } else {
                    assert(T::le(d[d.len() - 1], d[k]));
                }
            }
            assert(now.to_multiset().add(keys(down@).to_multiset()) =~= m.to_multiset().add(
                d.to_multiset(),
            ));
        }
    }
    proof {
        lemma_no_keys(down@);
        assert(keys(merged@).to_multiset() =~= all);
    }
    merged
}

/// The items in the order of their keys.
pub fn sort<T: Ranked>(items: Vec<T>) -> (sorted: Vec<T>)
    ensures
        in_order::<T>(keys(sorted@)),
        keys(sorted@).to_multiset() == keys(items@).to_multiset(),
    decreases items@.len(),
{
    let mut items = items;
    let count = items.len();
    if count <= 1 {
        return items;
    }
    let ghost all = items@;
    let back = items.split_off(count / 2);
    proof {
        assert(keys(all) =~= keys(items@) + keys(back@));
        vstd::seq_lib::lemma_multiset_commutative(keys(items@), keys(back@));
    }
    let front = sort(items);
    let back = sort(back);
    merge(front, back)
}

/// Of any two different keys that the keys hold, one is after the other.
pub open spec fn distinct<T: Ranked>(keys: Seq<T::Key>) -> bool {
    forall|i: int, j: int|
        0 <= i < keys.len() && 0 <= j < keys.len() && T::le(
            #[trigger] keys[i],
            #[trigger] keys[j],
        ) && T::le(keys[j], keys[i]) ==> keys[i] == keys[j]
}

/// Where of any two different keys one is after the other, keys in order
/// are the only arrangement in order of what they hold.
pub proof fn lemma_order_is_unique<T: Ranked>(a: Seq<T::Key>, b: Seq<T::Key>)
    requires
        in_order::<T>(a),
        in_order::<T>(b),
        a.to_multiset() == b.to_multiset(),
        distinct::<T>(a),
    ensures
        a == b,
    decreases a.len(),
{
    broadcast use vstd::multiset::group_multiset_axioms;

    a.to_multiset_ensures();
    b.to_multiset_ensures();
    if a.len() == 0 {
        assert(b.len() == 0);
        assert(a =~= b);
    } else {
        assert(b.len() == a.len());
        let x = a[0];
        let y = b[0];
        assert(a.contains(x));
        assert(b.to_multiset().count(x) > 0);
        assert(b.contains(x));
        let j = choose|j: int| 0 <= j < b.len() && b[j] == x;
        assert(b.contains(y));
        assert(a.to_multiset().count(y) > 0);
        assert(a.contains(y));
        let i = choose|i: int| 0 <= i < a.len() && a[i] == y;
        assert(T::le(x, y)) by {
            if i > 0 {
                assert(T::le(a[0], a[i]));
            } else {
                T::lemma_total(x, x);
            }
        }
        assert(T::le(y, x)) by {
            if j > 0 {
                assert(T::le(b[0], b[j]));
            } else {
                T::lemma_total(y, y);
            }
        }
        assert(x == y) by {
            assert(T::le(a[0], a[i]) && T::le(a[i], a[0]));
        }
        let rest_a = a.remove(0);
        let rest_b = b.remove(0);
        vstd::seq_lib::to_multiset_remove(a, 0);
        vstd::seq_lib::to_multiset_remove(b, 0);
        assert forall|p: int, q: int| 0 <= p < q < rest_a.len() implies T::le(
            #[trigger] rest_a[p],
            #[trigger] rest_a[q],
        ) by {
            assert(rest_a[p] == a[p + 1] && rest_a[q] == a[q + 1]);
        }
        assert forall|p: int, q: int| 0 <= p < q < rest_b.len() implies T::le(
            #[trigger] rest_b[p],
            #[trigger] rest_b[q],
        ) by {
            assert(rest_b[p] == b[p + 1] && rest_b[q] == b[q + 1]);
        }
        assert forall|p: int, q: int|
            0 <= p < rest_a.len() && 0 <= q < rest_a.len() && T::le(
                #[trigger] rest_a[p],
                #[trigger] rest_a[q],
            ) && T::le(rest_a[q], rest_a[p]) implies rest_a[p] == rest_a[q] by {
            assert(rest_a[p] == a[p + 1] && rest_a[q] == a[q + 1]);
        }
        lemma_order_is_unique::<T>(rest_a, rest_b);
        assert(a =~= seq![x] + rest_a);
        assert(b =~= seq![y] + rest_b);
    }
}

} // verus!
