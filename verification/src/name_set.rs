//! A set of names that hands them out in order.

use crate::order::{asymmetric, increasing, total, transitive};
use crate::order::{lemma_increasing_exists, lemma_increasing_unique};
use crate::text::{before, precedes, same, Text};
use crate::text::{lemma_precedes_irreflexive, lemma_precedes_total, lemma_precedes_transitive};
use vstd::prelude::*;

verus! {

/// The order of names.
pub open spec fn name_order() -> spec_fn(Text, Text) -> bool {
    |a: Text, b: Text| precedes(a, b)
}

/// No two names precede each other.
pub proof fn lemma_name_order_asymmetric()
    ensures
        asymmetric(name_order()),
{
    let lt = name_order();
    assert forall|a: Text, b: Text| #[trigger] lt(a, b) implies !lt(b, a) by {
        if precedes(b, a) {
            lemma_precedes_transitive(a, b, a);
            lemma_precedes_irreflexive(a);
        }
    }
}

/// The names of a set, in order.
pub open spec fn in_order(names: Set<Text>) -> Seq<Text> {
    choose|list: Seq<Text>| increasing(name_order(), list) && #[trigger] list.to_set() == names
}

/// An increasing list of names is the ordered form of its set.
pub proof fn lemma_in_order(list: Seq<Text>)
    requires
        increasing(name_order(), list),
    ensures
        in_order(list.to_set()) == list,
{
    lemma_name_order_asymmetric();
    lemma_increasing_unique(name_order(), in_order(list.to_set()), list);
}

/// The names of a finite set in order: each of them once, and nothing else.
pub proof fn lemma_names_in_order(names: Set<Text>)
    requires
        names.finite(),
    ensures
        increasing(name_order(), in_order(names)),
        in_order(names).to_set() == names,
        in_order(names).no_duplicates(),
{
    let lt = name_order();
    assert forall|a: Text, b: Text, c: Text| #[trigger] lt(a, b) && #[trigger] lt(
        b,
        c,
    ) implies lt(a, c) by {
        lemma_precedes_transitive(a, b, c);
    }
    assert forall|a: Text, b: Text| a != b implies #[trigger] lt(a, b) || lt(b, a) by {
        lemma_precedes_total(a, b);
    }
    assert(transitive(lt) && total(lt));
    let list = lemma_increasing_exists(lt, names);
    assert(increasing(name_order(), list) && list.to_set() == names);
    let ordered = in_order(names);
    assert forall|i: int, j: int| 0 <= i < j < ordered.len() implies ordered[i] != ordered[j] by {
        assert(lt(ordered[i], ordered[j]));
        lemma_precedes_irreflexive(ordered[i]);
    }
}

/// A set of names, kept in order.
#[derive(Clone, Debug, PartialEq, Eq)]
pub struct NameSet {
    names: Vec<String>,
}

impl NameSet {
    /// The names in order.
    pub closed spec fn list(&self) -> Seq<Text> {
        self.names.deep_view()
    }

    /// The names as a set.
    pub open spec fn set(&self) -> Set<Text> {
        self.list().to_set()
    }

    /// The names are in order, and none occurs twice.
    pub open spec fn wf(&self) -> bool {
        increasing(name_order(), self.list())
    }

    /// The set without names.
    pub fn new() -> (r: Self)
        ensures
            r.wf(),
            r.set() == Set::<Text>::empty(),
    {
        let r = NameSet { names: Vec::new() };
        proof {
            assert(r.set() =~= Set::<Text>::empty());
        }
        r
    }

    /// Where `name` stands, or where it would be put.
    fn position(&self, name: &str) -> (i: usize)
        requires
            self.wf(),
        ensures
            i <= self.list().len(),
            forall|j: int| 0 <= j < i ==> precedes(#[trigger] self.list()[j], name@),
            forall|j: int| i <= j < self.list().len() ==> !precedes(#[trigger] self.list()[j], name@),
            self.set().contains(name@) <==> i < self.list().len() && self.list()[i as int] == name@,
    {
        let mut i: usize = 0;
        while i < self.names.len() && before(self.names[i].as_str(), name)
            invariant
                i <= self.names@.len(),
                self.list().len() == self.names@.len(),
                forall|j: int| 0 <= j < self.names@.len() ==> #[trigger] self.list()[j] == self.names@[j]@,
                forall|j: int| 0 <= j < i ==> precedes(#[trigger] self.list()[j], name@),
            decreases self.names.len() - i,
        {
            i += 1;
        }
        proof {
            let lt = name_order();
            let list = self.list();
            assert forall|j: int| i <= j < list.len() implies !precedes(
                #[trigger] list[j],
                name@,
            ) by {
                if i < j && precedes(list[j], name@) {
                    assert(lt(list[i as int], list[j]));
                    lemma_precedes_transitive(list[i as int], list[j], name@);
                }
            }
            if self.set().contains(name@) {
                let k = choose|k: int| 0 <= k < list.len() && list[k] == name@;
                lemma_precedes_irreflexive(name@);
                assert(k >= i);
                if k > i {
                    assert(lt(list[i as int], list[k]));
                }
            }
            if i < list.len() && list[i as int] == name@ {
                assert(list.contains(name@));
            }
        }
        i
    }

    /// Whether the set holds `name`.
    pub fn contains(&self, name: &str) -> (r: bool)
        requires
            self.wf(),
        ensures
            r == self.set().contains(name@),
    {
        let i = self.position(name);
        i < self.names.len() && same(self.names[i].as_str(), name)
    }

    /// Adds a name. Returns whether it was new.
    pub fn insert(&mut self, name: String) -> (r: bool)
        requires
            old(self).wf(),
        ensures
            final(self).wf(),
            final(self).set() == old(self).set().insert(name@),
            r == !old(self).set().contains(name@),
    {
        let i = self.position(name.as_str());
        let ghost list = self.list();
        let ghost text = name@;
        if i < self.names.len() && same(self.names[i].as_str(), name.as_str()) {
            proof {
                assert(self.set().insert(text) =~= self.set());
            }
            return false;
        }
        self.names.insert(i, name);
        proof {
            let lt = name_order();
            let new = self.list();
            assert(new =~= list.insert(i as int, text));
            assert forall|a: int, b: int| 0 <= a < b < new.len() implies #[trigger] lt(
                new[a],
                new[b],
            ) by {
                if a < i && b > i {
                    assert(lt(list[a], list[b - 1]));
                } else if b < i {
                    assert(lt(list[a], list[b]));
                } else if a > i {
                    assert(lt(list[a - 1], list[b - 1]));
                } else if b == i {
                    assert(new[a] == list[a]);
                } else {
                    assert(new[b] == list[b - 1]);
                    lemma_precedes_total(list[b - 1], text);
                    if b - 1 > i {
                        assert(list[b - 1] != text) by {
                            if list[b - 1] == text {
                                assert(list.contains(text));
                            }
                        }
                    }
                }
            }
            assert forall|x: Text| self.set().contains(x) == old(self).set().insert(text).contains(
                x,
            ) by {
                if new.contains(x) && x != text {
                    let k = choose|k: int| 0 <= k < new.len() && new[k] == x;
                    if k < i {
                        assert(list[k] == x);
                    } else {
                        assert(list[k - 1] == x);
                    }
                }
                if list.contains(x) {
                    let k = choose|k: int| 0 <= k < list.len() && list[k] == x;
                    if k < i {
                        assert(new[k] == x);
                    } else {
                        assert(new[k + 1] == x);
                    }
                }
                assert(new[i as int] == text);
            }
            assert(self.set() =~= old(self).set().insert(text));
        }
        true
    }

    /// Takes a name out. Returns whether it was there.
    pub fn remove(&mut self, name: &str) -> (r: bool)
        requires
            old(self).wf(),
        ensures
            final(self).wf(),
            final(self).set() == old(self).set().remove(name@),
            r == old(self).set().contains(name@),
    {
        let i = self.position(name);
        let ghost list = self.list();
        if i < self.names.len() && same(self.names[i].as_str(), name) {
            self.names.remove(i);
            proof {
                let lt = name_order();
                let new = self.list();
                assert(new =~= list.remove(i as int));
                assert forall|a: int, b: int| 0 <= a < b < new.len() implies #[trigger] lt(
                    new[a],
                    new[b],
                ) by {
                    let a0 = if a < i { a } else { a + 1 };
                    let b0 = if b < i { b } else { b + 1 };
                    assert(lt(list[a0], list[b0]));
                }
                assert forall|x: Text| self.set().contains(x) == old(self).set().remove(
                    name@,
                ).contains(x) by {
                    if new.contains(x) {
                        let k = choose|k: int| 0 <= k < new.len() && new[k] == x;
                        let k0 = if k < i { k } else { k + 1 };
                        assert(list[k0] == x);
                        lemma_precedes_irreflexive(x);
                        if k < i {
                            assert(lt(list[k], list[i as int]));
                        } else {
                            assert(lt(list[i as int], list[k0]));
                        }
                    }
                    if list.contains(x) && x != name@ {
                        let k = choose|k: int| 0 <= k < list.len() && list[k] == x;
                        if k < i {
                            assert(new[k] == x);
                        } else {
                            assert(new[k - 1] == x);
                        }
                    }
                }
                assert(self.set() =~= old(self).set().remove(name@));
            }
            true
        } else {
            proof {
                assert(self.set().remove(name@) =~= self.set());
            }
            false
        }
    }

    /// Number of names.
    pub fn len(&self) -> (r: usize)
        ensures
            r == self.list().len(),
    {
        self.names.len()
    }

    /// The name at one place of the order.
    pub fn name(&self, i: usize) -> (r: &str)
        requires
            i < self.list().len(),
        ensures
            r@ == self.list()[i as int],
    {
        self.names[i].as_str()
    }

    /// The list of a well-formed set is the ordered form of the set.
    pub proof fn lemma_list(&self)
        requires
            self.wf(),
        ensures
            self.list() == in_order(self.set()),
    {
        lemma_in_order(self.list());
    }
}

} // verus!
