//! Strictly increasing sequences: the ordered form of a set or of the keys of a map.

use vstd::prelude::*;

verus! {

/// Each item of `items` is below every later one.
pub open spec fn increasing<K>(lt: spec_fn(K, K) -> bool, items: Seq<K>) -> bool {
    forall|i: int, j: int| 0 <= i < j < items.len() ==> #[trigger] lt(items[i], items[j])
}

/// `lt` never holds both ways round.
pub open spec fn asymmetric<K>(lt: spec_fn(K, K) -> bool) -> bool {
    forall|a: K, b: K| #[trigger] lt(a, b) ==> !lt(b, a)
}

/// `lt` carries over from one item to the next.
pub open spec fn transitive<K>(lt: spec_fn(K, K) -> bool) -> bool {
    forall|a: K, b: K, c: K| #[trigger] lt(a, b) && #[trigger] lt(b, c) ==> lt(a, c)
}

/// `lt` holds one way round between any two items.
pub open spec fn total<K>(lt: spec_fn(K, K) -> bool) -> bool {
    forall|a: K, b: K| a != b ==> #[trigger] lt(a, b) || lt(b, a)
}

/// A set has at most one increasing enumeration.
pub proof fn lemma_increasing_unique<K>(lt: spec_fn(K, K) -> bool, a: Seq<K>, b: Seq<K>)
    requires
        asymmetric(lt),
        increasing(lt, a),
        increasing(lt, b),
        a.to_set() == b.to_set(),
    ensures
        a == b,
    decreases a.len(),
{
    if a.len() == 0 {
        if b.len() > 0 {
            assert(b.to_set().contains(b[0]));
            assert(a.to_set().contains(b[0]));
        }
        assert(a =~= b);
    } else {
        assert(a.to_set().contains(a[0]));
        assert(b.to_set().contains(a[0]));
        assert(b.len() > 0);
        assert(a.to_set().contains(a.last()));
        assert(b.to_set().contains(a.last()));
        assert(b.to_set().contains(b.last()));
        assert(a.to_set().contains(b.last()));
        let j = choose|j: int| 0 <= j < b.len() && b[j] == a.last();
        let i = choose|i: int| 0 <= i < a.len() && a[i] == b.last();
        if a.last() != b.last() {
            assert(lt(b[j], b[b.len() - 1]));
            assert(lt(a[i], a[a.len() - 1]));
            assert(false);
        }
        let x = a.last();
        lemma_drop_last_set(lt, a);
        lemma_drop_last_set(lt, b);
        assert(a.drop_last().to_set() =~= b.drop_last().to_set());
        lemma_increasing_unique(lt, a.drop_last(), b.drop_last());
        assert(a =~= a.drop_last().push(x));
        assert(b =~= b.drop_last().push(x));
    }
}

/// Dropping the last item of an increasing sequence takes exactly that item out of its set.
proof fn lemma_drop_last_set<K>(lt: spec_fn(K, K) -> bool, a: Seq<K>)
    requires
        asymmetric(lt),
        increasing(lt, a),
        a.len() > 0,
    ensures
        a.drop_last().to_set() =~= a.to_set().remove(a.last()),
{
    let short = a.drop_last();
    assert forall|x: K| short.to_set().contains(x) == a.to_set().remove(a.last()).contains(x) by {
        if short.contains(x) {
            let i = choose|i: int| 0 <= i < short.len() && short[i] == x;
            assert(a[i] == x);
            assert(lt(a[i], a[a.len() - 1]));
        }
        if a.contains(x) && x != a.last() {
            let i = choose|i: int| 0 <= i < a.len() && a[i] == x;
            assert(short[i] == x);
        }
    }
}

/// The place of a new item in an increasing sequence.
proof fn lemma_place<K>(lt: spec_fn(K, K) -> bool, items: Seq<K>, item: K) -> (place: int)
    requires
        transitive(lt),
        total(lt),
        increasing(lt, items),
        !items.contains(item),
    ensures
        0 <= place <= items.len(),
        forall|i: int| 0 <= i < place ==> lt(#[trigger] items[i], item),
        forall|i: int| place <= i < items.len() ==> lt(item, #[trigger] items[i]),
    decreases items.len(),
{
    if items.len() == 0 {
        0
    } else if lt(items.last(), item) {
        assert forall|i: int| 0 <= i < items.len() implies lt(#[trigger] items[i], item) by {
            if i < items.len() - 1 {
                assert(lt(items[i], items[items.len() - 1]));
            }
        }
        items.len() as int
    } else {
        let short = items.drop_last();
        assert(items.contains(items.last()));
        assert(lt(item, items.last()));
        assert(increasing(lt, short)) by {
            assert forall|i: int, j: int| 0 <= i < j < short.len() implies #[trigger] lt(
                short[i],
                short[j],
            ) by {
                assert(lt(items[i], items[j]));
            }
        }
        assert(!short.contains(item)) by {
            if short.contains(item) {
                let i = short.index_of(item);
                assert(items[i] == item);
            }
        }
        let place = lemma_place(lt, short, item);
        assert forall|i: int| place <= i < items.len() implies lt(item, #[trigger] items[i]) by {
            if i < short.len() {
                assert(lt(item, short[i]));
            }
        }
        assert forall|i: int| 0 <= i < place implies lt(#[trigger] items[i], item) by {
            assert(lt(short[i], item));
        }
        place
    }
}

/// A finite set has an increasing enumeration.
pub proof fn lemma_increasing_exists<K>(lt: spec_fn(K, K) -> bool, set: Set<K>) -> (items: Seq<K>)
    requires
        transitive(lt),
        total(lt),
        set.finite(),
    ensures
        increasing(lt, items),
        items.to_set() == set,
    decreases set.len(),
{
    if set.len() == 0 {
        let items = Seq::<K>::empty();
        assert(items.to_set() =~= set);
        items
    } else {
        let item = set.choose();
        let rest = lemma_increasing_exists(lt, set.remove(item));
        assert(!rest.contains(item)) by {
            if rest.contains(item) {
                assert(rest.to_set().contains(item));
            }
        }
        let place = lemma_place(lt, rest, item);
        let items = rest.insert(place, item);
        assert forall|i: int, j: int| 0 <= i < j < items.len() implies #[trigger] lt(
            items[i],
            items[j],
        ) by {
            let i0 = if i < place { i } else { i - 1 };
            let j0 = if j < place { j } else { j - 1 };
            if i == place {
                assert(lt(item, rest[j0]));
            } else if j == place {
                assert(lt(rest[i0], item));
            } else {
                assert(lt(rest[i0], rest[j0]));
            }
        }
        assert forall|x: K| items.to_set().contains(x) == set.contains(x) by {
            if items.contains(x) {
                let i = items.index_of(x);
                if i != place {
                    assert(rest.to_set().contains(rest[if i < place { i } else { i - 1 }]));
                }
            }
            if set.contains(x) {
                if x == item {
                    assert(items[place] == x);
                } else {
                    assert(rest.to_set().contains(x));
                    let i = rest.index_of(x);
                    assert(items[if i < place { i } else { i + 1 }] == x);
                }
            }
        }
        assert(items.to_set() =~= set);
        items
    }
}

} // verus!
