//! Values by name, in the order of the names.
use vstd::prelude::*;
use crate::text::{comes_before, same_text, text_before, text_order_is_total};

verus! {

/// A map from texts to values that is walked in the order of the texts.
#[derive(Debug)]
pub struct TextMap<V> {
    entries: Vec<(String, V)>,
}

spec fn strictly_ordered<V>(entries: Seq<(String, V)>) -> bool {
    forall|i: int, j: int|
        0 <= i < j < entries.len() ==> comes_before(
            (#[trigger] entries[i]).0@,
            (#[trigger] entries[j]).0@,
        )
}

impl<V> View for TextMap<V> {
    type V = Map<Seq<char>, V>;

    closed spec fn view(&self) -> Map<Seq<char>, V> {
        Map::new(
            |key: Seq<char>|
                exists|i: int| 0 <= i < self.entries@.len() && (#[trigger] self.entries@[i]).0@ == key,
            |key: Seq<char>|
                self.entries@[choose|i: int|
                    0 <= i < self.entries@.len() && (#[trigger] self.entries@[i]).0@ == key].1,
        )
    }
}

impl<V> TextMap<V> {
    #[verifier::type_invariant]
    spec fn ordered(&self) -> bool {
        strictly_ordered(self.entries@)
    }

    /// The names, in order.
    pub closed spec fn names(&self) -> Seq<Seq<char>> {
        self.entries@.map_values(|entry: (String, V)| entry.0@)
    }

    proof fn entry_is_held(&self, i: int)
        requires
            strictly_ordered(self.entries@),
            0 <= i < self.entries@.len(),
        ensures
            self@.contains_key(self.entries@[i].0@),
            self@[self.entries@[i].0@] == self.entries@[i].1,
    {
        let key = self.entries@[i].0@;
        let j = choose|j: int| 0 <= j < self.entries@.len() && (#[trigger] self.entries@[j]).0@ == key;
        text_order_is_total(key, key, key);
        if i < j {
            assert(comes_before(self.entries@[i].0@, self.entries@[j].0@));
        } else if j < i {
            assert(comes_before(self.entries@[j].0@, self.entries@[i].0@));
        }
    }

    /// A map that holds nothing.
    pub fn new() -> (r: TextMap<V>)
        ensures
            r@ == Map::<Seq<char>, V>::empty(),
            r.names() == Seq::<Seq<char>>::empty(),
    {
        let r = TextMap { entries: Vec::new() };
        assert(r@ =~= Map::empty());
        assert(r.names() =~= Seq::empty());
        r
    }

    /// How many names it holds. The names are the keys of the map, each once, in order.
    pub fn len(&self) -> (r: usize)
        ensures
            r == self.names().len(),
            forall|i: int|
                0 <= i < self.names().len() ==> self@.contains_key(#[trigger] self.names()[i]),
            forall|key: Seq<char>| #[trigger] self@.contains_key(key) ==> self.names().contains(key),
            forall|i: int, j: int|
                0 <= i < j < self.names().len() ==> comes_before(
                    #[trigger] self.names()[i],
                    #[trigger] self.names()[j],
                ),
    {
        proof {
            use_type_invariant(self);
            assert forall|i: int| 0 <= i < self.names().len() implies self@.contains_key(
                #[trigger] self.names()[i],
            ) by {
                self.entry_is_held(i);
            }
            assert forall|key: Seq<char>| #[trigger]
                self@.contains_key(key) implies self.names().contains(key) by {
                let i = choose|i: int|
                    0 <= i < self.entries@.len() && (#[trigger] self.entries@[i]).0@ == key;
                assert(self.names()[i] == key);
            }
            assert forall|i: int, j: int| 0 <= i < j < self.names().len() implies comes_before(
                #[trigger] self.names()[i],
                #[trigger] self.names()[j],
            ) by {
                assert(comes_before(self.entries@[i].0@, self.entries@[j].0@));
            }
        }
        self.entries.len()
    }

    /// Where a name stands, or would stand.
    fn place(&self, key: &str) -> (r: (usize, bool))
        ensures
            r.0 <= self.entries@.len(),
            forall|k: int| 0 <= k < r.0 ==> comes_before((#[trigger] self.entries@[k]).0@, key@),
            forall|k: int|
                r.0 <= k < self.entries@.len() ==> !comes_before(
                    (#[trigger] self.entries@[k]).0@,
                    key@,
                ),
            r.1 ==> r.0 < self.entries@.len() && self.entries@[r.0 as int].0@ == key@,
            !r.1 ==> forall|k: int|
                0 <= k < self.entries@.len() ==> (#[trigger] self.entries@[k]).0@ != key@,
    {
        proof {
            use_type_invariant(self);
        }
        let mut low: usize = 0;
        let mut high: usize = self.entries.len();
        while low < high
            invariant
                low <= high <= self.entries@.len(),
                strictly_ordered(self.entries@),
                forall|k: int| 0 <= k < low ==> comes_before((#[trigger] self.entries@[k]).0@, key@),
                forall|k: int|
                    high <= k < self.entries@.len() ==> !comes_before(
                        (#[trigger] self.entries@[k]).0@,
                        key@,
                    ),
            decreases high - low,
        {
            let middle: usize = low + (high - low) / 2;
            if text_before(self.entries[middle].0.as_str(), key) {
                assert forall|k: int| 0 <= k < middle + 1 implies comes_before(
                    (#[trigger] self.entries@[k]).0@,
                    key@,
                ) by {
                    if k < middle {
                        text_order_is_total(
                            self.entries@[k].0@,
                            self.entries@[middle as int].0@,
                            key@,
                        );
                    }
                }
                low = middle + 1;
            } else {
                assert forall|k: int| middle <= k < self.entries@.len() implies !comes_before(
                    (#[trigger] self.entries@[k]).0@,
                    key@,
                ) by {
                    if k > middle {
                        text_order_is_total(
                            self.entries@[middle as int].0@,
                            self.entries@[k].0@,
                            key@,
                        );
                    }
                }
                high = middle;
            }
        }
        let there = low < self.entries.len() && same_text(self.entries[low].0.as_str(), key);
        proof {
            text_order_is_total(key@, key@, key@);
            if !there {
                assert forall|k: int| 0 <= k < self.entries@.len() implies (
                #[trigger] self.entries@[k]).0@ != key@ by {
                    if k > low {
                        assert(comes_before(self.entries@[low as int].0@, self.entries@[k].0@));
                    }
                }
            }
        }
        (low, there)
    }

    /// The value of a name.
    pub fn get(&self, key: &str) -> (r: Option<&V>)
        ensures
            match r {
                Some(value) => self@.contains_key(key@) && *value == self@[key@],
                None => !self@.contains_key(key@),
            },
    {
        proof {
            use_type_invariant(self);
        }
        let (at, there) = self.place(key);
        if there {
            proof {
                self.entry_is_held(at as int);
            }
            Some(&self.entries[at].1)
        } else {
            None
        }
    }

    /// Whether a name has a value.
    pub fn contains_key(&self, key: &str) -> (r: bool)
        ensures
            r == self@.contains_key(key@),
    {
        match self.get(key) {
            Some(_) => true,
            None => false,
        }
    }

    /// The name at a position of the order.
    pub fn name_at(&self, i: usize) -> (r: &str)
        requires
            i < self.names().len(),
        ensures
            r@ == self.names()[i as int],
    {
        self.entries[i].0.as_str()
    }

    /// The value at a position of the order.
    pub fn value_at(&self, i: usize) -> (r: &V)
        requires
            i < self.names().len(),
        ensures
            *r == self@[self.names()[i as int]],
            self@.contains_key(self.names()[i as int]),
    {
        proof {
            use_type_invariant(self);
            self.entry_is_held(i as int);
        }
        &self.entries[i].1
    }

    /// Gives a name a value, in place of the one it had.
    pub fn insert(&mut self, key: String, value: V)
        ensures
            final(self)@ == old(self)@.insert(key@, value),
    {
        proof {
            use_type_invariant(&*self);
        }
        let (at, there) = self.place(key.as_str());
        let ghost before = self.entries@;
        let ghost wanted = key@;
        let mut entries: Vec<(String, V)> = Vec::new();
        std::mem::swap(&mut entries, &mut self.entries);
        if there {
            entries.remove(at);
        }
        entries.insert(at, (key, value));
        proof {
            assert forall|i: int, j: int| 0 <= i < j < entries@.len() implies comes_before(
                (#[trigger] entries@[i]).0@,
                (#[trigger] entries@[j]).0@,
            ) by {
                let shift: int = if there {
                    0
                } else {
                    1
                };
                if i == at {
                    let old_j = j - shift;
                    assert(entries@[j] == before[old_j]);
                    text_order_is_total(wanted, before[old_j].0@, wanted);
                    if there {
                        assert(comes_before(before[at as int].0@, before[old_j].0@));
                    }
                } else if j == at {
                    assert(entries@[i] == before[i]);
                } else {
                    let old_i = if i < at {
                        i
                    } else {
                        i - shift
                    };
                    let old_j = if j < at {
                        j
                    } else {
                        j - shift
                    };
                    assert(entries@[i] == before[old_i]);
                    assert(entries@[j] == before[old_j]);
                }
            }
            assert(strictly_ordered(entries@));
        }
        self.entries = entries;
        proof {
            let ghost was = TextMap { entries: old(self).entries };
            let now = self.entries@;
            let shift: int = if there {
                0
            } else {
                1
            };
            assert forall|k: Seq<char>| #[trigger] self@.contains_key(k) <==> old(self)@.insert(
                wanted,
                value,
            ).contains_key(k) by {
                if self@.contains_key(k) {
                    let i = choose|i: int| 0 <= i < now.len() && (#[trigger] now[i]).0@ == k;
                    if i != at {
                        let old_i = if i < at {
                            i
                        } else {
                            i - shift
                        };
                        assert(before[old_i].0@ == k);
                    }
                }
                if old(self)@.contains_key(k) {
                    let i = choose|i: int| 0 <= i < before.len() && (#[trigger] before[i]).0@ == k;
                    let new_i = if i < at {
                        i
                    } else {
                        i + shift
                    };
                    assert(now[new_i].0@ == k);
                }
                assert(now[at as int].0@ == wanted);
            }
            assert forall|k: Seq<char>| #[trigger] self@.contains_key(k) implies self@[k] == old(
                self,
            )@.insert(wanted, value)[k] by {
                let i = choose|i: int| 0 <= i < now.len() && (#[trigger] now[i]).0@ == k;
                self.entry_is_held(i);
                if i != at {
                    let old_i = if i < at {
                        i
                    } else {
                        i - shift
                    };
                    assert(now[i] == before[old_i]);
                    old(self).entry_is_held(old_i);
                    assert(k != wanted) by {
                        text_order_is_total(k, k, k);
                        if i < at {
                            assert(comes_before(now[i].0@, now[at as int].0@));
                        } else {
                            assert(comes_before(now[at as int].0@, now[i].0@));
                        }
                    }
                }
            }
            assert(self@ =~= old(self)@.insert(wanted, value));
        }
    }

    /// Takes the last name and its value out.
    pub fn pop(&mut self) -> (r: Option<(String, V)>)
        ensures
            match r {
                Some((name, value)) => {
                    &&& old(self)@.contains_key(name@)
                    &&& old(self)@[name@] == value
                    &&& final(self)@ == old(self)@.remove(name@)
                    &&& final(self).names().len() < old(self).names().len()
                },
                None => final(self)@ == old(self)@ && old(self)@ == Map::<Seq<char>, V>::empty(),
            },
    {
        proof {
            use_type_invariant(&*self);
        }
        let ghost before = *self;
        let ghost held = self.entries@;
        let mut entries: Vec<(String, V)> = Vec::new();
        std::mem::swap(&mut entries, &mut self.entries);
        let last = entries.pop();
        self.entries = entries;
        proof {
            let now = *self;
            assert(before.names().len() == held.len());
            assert(now.names().len() == now.entries@.len());
            if held.len() > 0 {
                let name = held.last().0@;
                before.entry_is_held(held.len() - 1);
                assert forall|key: Seq<char>| #[trigger] now@.contains_key(key) <==> (
                before@.contains_key(key) && key != name) by {
                    if now@.contains_key(key) {
                        let i = choose|i: int|
                            0 <= i < now.entries@.len() && (#[trigger] now.entries@[i]).0@ == key;
                        assert(held[i].0@ == key);
                        assert(comes_before(held[i].0@, held[held.len() - 1].0@));
                        text_order_is_total(key, key, key);
                    }
                    if before@.contains_key(key) && key != name {
                        let i = choose|i: int|
                            0 <= i < held.len() && (#[trigger] held[i]).0@ == key;
                        assert(now.entries@[i].0@ == key);
                    }
                }
                assert forall|key: Seq<char>| #[trigger] now@.contains_key(key) implies now@[key]
                    == before@[key] by {
                    let i = choose|i: int|
                        0 <= i < now.entries@.len() && (#[trigger] now.entries@[i]).0@ == key;
                    now.entry_is_held(i);
                    assert(held[i] == now.entries@[i]);
                    before.entry_is_held(i);
                }
                assert(now@ =~= before@.remove(name));
            } else {
                assert(before@ =~= Map::empty());
                assert(now@ =~= before@);
            }
        }
        last
    }
}

} // verus!
