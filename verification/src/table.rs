//! Small ordered tables keyed by label: a `Vec` kept strictly sorted by
//! key, which makes each key occur at most once.

use vstd::prelude::*;
use crate::text::{compare_labels, label_lt, lemma_label_lt_asymmetric, lemma_label_lt_irreflexive, lemma_label_lt_transitive, LabelOrder};

verus! {

/// An item that is found again by a label.
pub trait Keyed {
    spec fn key_of(&self) -> Seq<char>;

    fn key(&self) -> (r: &str)
        ensures
            r@ == self.key_of(),
    ;
}

impl Keyed for String {
    open spec fn key_of(&self) -> Seq<char> {
        self@
    }

    fn key(&self) -> (r: &str) {
        self.as_str()
    }
}

/// Keys strictly increase along `s`.
pub open spec fn sorted_by_key<T: Keyed>(s: Seq<T>) -> bool {
    forall|i: int, j: int| 0 <= i < j < s.len() ==> label_lt(#[trigger] s[i].key_of(), #[trigger] s[j].key_of())
}

/// `k` is the key of some item of `s`.
pub open spec fn has_key<T: Keyed>(s: Seq<T>, k: Seq<char>) -> bool {
    exists|i: int| 0 <= i < s.len() && #[trigger] s[i].key_of() == k
}

/// The map from each key of `s` to its item.
pub open spec fn map_of<T: Keyed>(s: Seq<T>) -> Map<Seq<char>, T> {
    Map::new(
        |k: Seq<char>| has_key(s, k),
        |k: Seq<char>| s[index_of_key(s, k)],
    )
}

/// An index at which `s` holds an item with key `k`, where there is one.
pub open spec fn index_of_key<T: Keyed>(s: Seq<T>, k: Seq<char>) -> int {
    choose|i: int| 0 <= i < s.len() && #[trigger] s[i].key_of() == k
}

pub proof fn lemma_sorted_keys_distinct<T: Keyed>(s: Seq<T>, i: int, j: int)
    requires
        sorted_by_key(s),
        0 <= i < s.len(),
        0 <= j < s.len(),
        i != j,
    ensures
        s[i].key_of() != s[j].key_of(),
{
    lemma_label_lt_irreflexive(s[i].key_of());
    lemma_label_lt_irreflexive(s[j].key_of());
}

pub proof fn lemma_map_of_index<T: Keyed>(s: Seq<T>, i: int)
    requires
        sorted_by_key(s),
        0 <= i < s.len(),
    ensures
        map_of(s).contains_key(s[i].key_of()),
        map_of(s)[s[i].key_of()] == s[i],
{
    let k = s[i].key_of();
    assert(has_key(s, k));
    let j = index_of_key(s, k);
    if j != i {
        lemma_sorted_keys_distinct(s, i, j);
    }
}

/// Every entry of the map is at some index of `s`.
pub proof fn lemma_map_of_entry<T: Keyed>(s: Seq<T>, k: Seq<char>) -> (i: int)
    requires
        sorted_by_key(s),
        map_of(s).contains_key(k),
    ensures
        0 <= i < s.len(),
        s[i].key_of() == k,
        map_of(s)[k] == s[i],
{
    let i = index_of_key(s, k);
    lemma_map_of_index(s, i);
    i
}

/// A list of items kept strictly sorted by key.
pub struct KeyedList<T> {
    entries: Vec<T>,
}

impl<T: Keyed> KeyedList<T> {
    pub closed spec fn items(&self) -> Seq<T> {
        self.entries@
    }

    pub open spec fn wf(&self) -> bool {
        sorted_by_key(self.items())
    }

    pub open spec fn map(&self) -> Map<Seq<char>, T> {
        map_of(self.items())
    }

    pub fn new() -> (r: Self)
        ensures
            r.wf(),
            r.items() == Seq::<T>::empty(),
            r.map() == Map::<Seq<char>, T>::empty(),
    {
        let r = KeyedList { entries: Vec::new() };
        assert(r.map() =~= Map::<Seq<char>, T>::empty());
        r
    }

    pub fn len(&self) -> (r: usize)
        ensures
            r == self.items().len(),
    {
        self.entries.len()
    }

    pub fn as_slice(&self) -> (r: &[T])
        ensures
            r@ == self.items(),
    {
        self.entries.as_slice()
    }

    /// The index of the first item whose key is not below `key`, and
    /// whether that item has `key`.
    fn position(&self, key: &str) -> (r: (usize, bool))
        requires
            self.wf(),
        ensures
            r.0 <= self.items().len(),
            forall|i: int| 0 <= i < r.0 ==> label_lt(#[trigger] self.items()[i].key_of(), key@),
            forall|i: int| r.0 <= i < self.items().len() ==> !label_lt(#[trigger] self.items()[i].key_of(), key@),
            r.1 == (r.0 < self.items().len() && self.items()[r.0 as int].key_of() == key@),
            !r.1 ==> forall|i: int| r.0 <= i < self.items().len() ==> label_lt(key@, #[trigger] self.items()[i].key_of()),
    {
        let mut p: usize = 0;
        while p < self.entries.len()
            invariant
                self.wf(),
                p <= self.items().len(),
                forall|i: int| 0 <= i < p ==> label_lt(#[trigger] self.items()[i].key_of(), key@),
            decreases self.entries.len() - p,
        {
            let c = compare_labels(self.entries[p].key(), key);
            if c != LabelOrder::Less {
                proof {
                    let s = self.items();
                    assert forall|i: int| p <= i < s.len() implies !label_lt(#[trigger] s[i].key_of(), key@) by {
                        if i > p {
                            lemma_label_lt_asymmetric(key@, s[i].key_of());
                            if label_lt(s[i].key_of(), key@) {
                                if c == LabelOrder::Equal {
                                } else {
                                    lemma_label_lt_transitive(s[p as int].key_of(), s[i].key_of(), key@);
                                    lemma_label_lt_asymmetric(s[p as int].key_of(), key@);
                                }
                                lemma_label_lt_asymmetric(s[p as int].key_of(), s[i].key_of());
                            }
                        }
                    }
                    if c == LabelOrder::Greater {
                        assert forall|i: int| p <= i < s.len() implies label_lt(key@, #[trigger] s[i].key_of()) by {
                            if i > p {
                                lemma_label_lt_transitive(key@, s[p as int].key_of(), s[i].key_of());
                            }
                        }
                    }
                }
                return (p, c == LabelOrder::Equal);
            }
            p = p + 1;
        }
        (p, false)
    }

    pub fn contains(&self, key: &str) -> (r: bool)
        requires
            self.wf(),
        ensures
            r == self.map().contains_key(key@),
    {
        let (p, found) = self.position(key);
        proof {
            if found {
                lemma_map_of_index(self.items(), p as int);
            }
            if self.map().contains_key(key@) {
                let i = lemma_map_of_entry(self.items(), key@);
                lemma_label_lt_irreflexive(key@);
            }
        }
        found
    }

    pub fn get(&self, key: &str) -> (r: Option<&T>)
        requires
            self.wf(),
        ensures
            r is Some == self.map().contains_key(key@),
            r matches Some(t) ==> *t == self.map()[key@],
    {
        let (p, found) = self.position(key);
        proof {
            if found {
                lemma_map_of_index(self.items(), p as int);
            }
            if self.map().contains_key(key@) {
                let i = lemma_map_of_entry(self.items(), key@);
                lemma_label_lt_irreflexive(key@);
            }
        }
        if found {
            Some(&self.entries[p])
        } else {
            None
        }
    }

    /// Puts `item` under its key, handing back the item it replaces.
    pub fn upsert(&mut self, item: T) -> (r: Option<T>)
        requires
            old(self).wf(),
        ensures
            final(self).wf(),
            final(self).map() == old(self).map().insert(item.key_of(), item),
            r is Some == old(self).map().contains_key(item.key_of()),
            r matches Some(prev) ==> prev == old(self).map()[item.key_of()],
    {
        let ghost k = item.key_of();
        let ghost s0 = self.items();
        let (p, found) = self.position(item.key());
        proof {
            if old(self).map().contains_key(k) {
                let i = lemma_map_of_entry(s0, k);
                lemma_label_lt_irreflexive(k);
            }
        }
        if found {
            proof {
                lemma_map_of_index(s0, p as int);
            }
            let mut item = item;
            std::mem::swap(&mut self.entries[p], &mut item);
            proof {
                let s1 = self.items();
                assert(s1 =~= s0.update(p as int, s1[p as int]));
                assert(sorted_by_key(s1)) by {
                    assert forall|i: int, j: int| 0 <= i < j < s1.len() implies label_lt(
                        #[trigger] s1[i].key_of(),
                        #[trigger] s1[j].key_of(),
                    ) by {
                        assert(s1[i].key_of() == s0[i].key_of());
                        assert(s1[j].key_of() == s0[j].key_of());
                    }
                }
                assert(self.map() =~= old(self).map().insert(k, s1[p as int])) by {
                    assert forall|key: Seq<char>| #[trigger] self.map().contains_key(key) <==> old(self).map().insert(k, s1[p as int]).contains_key(key) by {
                        if self.map().contains_key(key) {
                            let i = lemma_map_of_entry(s1, key);
                            if i != p {
                                lemma_map_of_index(s0, i);
                            }
                        }
                        if old(self).map().contains_key(key) {
                            let i = lemma_map_of_entry(s0, key);
                            lemma_map_of_index(s1, i);
                        }
                        if key == k {
                            lemma_map_of_index(s1, p as int);
                        }
                    }
                    assert forall|key: Seq<char>| #[trigger] self.map().contains_key(key) implies self.map()[key] == old(self).map().insert(k, s1[p as int])[key] by {
                        let i = lemma_map_of_entry(s1, key);
                        if i != p {
                            lemma_map_of_index(s0, i);
                        }
                    }
                }
            }
            Some(item)
        } else {
            self.entries.insert(p, item);
            proof {
                let s1 = self.items();
                assert(s1 =~= s0.insert(p as int, s1[p as int]));
                assert(sorted_by_key(s1)) by {
                    assert forall|i: int, j: int| 0 <= i < j < s1.len() implies label_lt(
                        #[trigger] s1[i].key_of(),
                        #[trigger] s1[j].key_of(),
                    ) by {
                        if j < p {
                            assert(s1[i] == s0[i] && s1[j] == s0[j]);
                        } else if j == p {
                            assert(s1[i] == s0[i]);
                        } else if i == p {
                            assert(s1[j] == s0[j - 1]);
                        } else if i < p {
                            assert(s1[i] == s0[i] && s1[j] == s0[j - 1]);
                            assert(label_lt(s0[i].key_of(), k));
                            assert(label_lt(k, s0[j - 1].key_of()));
                            lemma_label_lt_transitive(s0[i].key_of(), k, s0[j - 1].key_of());
                        } else {
                            assert(s1[i] == s0[i - 1] && s1[j] == s0[j - 1]);
                        }
                    }
                }
                assert(self.map() =~= old(self).map().insert(k, item)) by {
                    assert forall|key: Seq<char>| #[trigger] self.map().contains_key(key) <==> old(self).map().insert(k, item).contains_key(key) by {
                        if self.map().contains_key(key) {
                            let i = lemma_map_of_entry(s1, key);
                            if i < p {
                                lemma_map_of_index(s0, i);
                            } else if i > p {
                                lemma_map_of_index(s0, i - 1);
                            }
                        }
                        if old(self).map().contains_key(key) {
                            let i = lemma_map_of_entry(s0, key);
                            if i < p {
                                lemma_map_of_index(s1, i);
                            } else {
                                lemma_map_of_index(s1, i + 1);
                            }
                        }
                        if key == k {
                            lemma_map_of_index(s1, p as int);
                        }
                    }
                    assert forall|key: Seq<char>| #[trigger] self.map().contains_key(key) implies self.map()[key] == old(self).map().insert(k, item)[key] by {
                        let i = lemma_map_of_entry(s1, key);
                        if i < p {
                            lemma_map_of_index(s0, i);
                        } else if i > p {
                            lemma_map_of_index(s0, i - 1);
                        }
                    }
                }
            }
            None
        }
    }

    /// Takes out the item under `key`, if there is one.
    pub fn remove(&mut self, key: &str) -> (r: Option<T>)
        requires
            old(self).wf(),
        ensures
            final(self).wf(),
            final(self).map() == old(self).map().remove(key@),
            r is Some == old(self).map().contains_key(key@),
            r matches Some(prev) ==> prev == old(self).map()[key@],
    {
        let ghost s0 = self.items();
        let (p, found) = self.position(key);
        proof {
            if old(self).map().contains_key(key@) {
                let i = lemma_map_of_entry(s0, key@);
                lemma_label_lt_irreflexive(key@);
            }
        }
        if !found {
            assert(self.map() =~= old(self).map().remove(key@));
            return None;
        }
        proof {
            lemma_map_of_index(s0, p as int);
        }
        let item = self.entries.remove(p);
        proof {
            let s1 = self.items();
            assert(s1 =~= s0.remove(p as int));
            assert(sorted_by_key(s1)) by {
                assert forall|i: int, j: int| 0 <= i < j < s1.len() implies label_lt(
                    #[trigger] s1[i].key_of(),
                    #[trigger] s1[j].key_of(),
                ) by {
                    if j < p {
                        assert(s1[i] == s0[i] && s1[j] == s0[j]);
                    } else if i < p {
                        assert(s1[i] == s0[i] && s1[j] == s0[j + 1]);
                    } else {
                        assert(s1[i] == s0[i + 1] && s1[j] == s0[j + 1]);
                    }
                }
            }
            assert(self.map() =~= old(self).map().remove(key@)) by {
                assert forall|k: Seq<char>| #[trigger] self.map().contains_key(k) <==> old(self).map().remove(key@).contains_key(k) by {
                    if self.map().contains_key(k) {
                        let i = lemma_map_of_entry(s1, k);
                        if i < p {
                            lemma_map_of_index(s0, i);
                            lemma_sorted_keys_distinct(s0, i, p as int);
                        } else {
                            lemma_map_of_index(s0, i + 1);
                            lemma_sorted_keys_distinct(s0, i + 1, p as int);
                        }
                    }
                    if old(self).map().contains_key(k) && k != key@ {
                        let i = lemma_map_of_entry(s0, k);
                        if i < p {
                            lemma_map_of_index(s1, i);
                        } else {
                            lemma_map_of_index(s1, i - 1);
                        }
                    }
                }
                assert forall|k: Seq<char>| #[trigger] self.map().contains_key(k) implies self.map()[k] == old(self).map().remove(key@)[k] by {
                    let i = lemma_map_of_entry(s1, k);
                    if i < p {
                        lemma_map_of_index(s0, i);
                    } else {
                        lemma_map_of_index(s0, i + 1);
                    }
                }
            }
        }
        Some(item)
    }
}

} // verus!
