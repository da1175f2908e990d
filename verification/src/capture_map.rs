//! A map from capture names to values that keeps its names in the order of
//! std's string comparison, each name once.

use vstd::prelude::*;
use crate::order::{TextOrder, text_order, text_lt, lemma_bytes_lt_irreflexive,
    lemma_bytes_lt_transitive};
use vstd::utf8::encode_utf8;

verus! {

/// Entries sorted strictly by name.
pub struct CaptureMap<V> {
    entries: Vec<(String, V)>,
}

/// Entries whose names strictly increase.
pub open spec fn names_increasing<V>(entries: Seq<(String, V)>) -> bool {
    forall|i: int, j: int| 0 <= i < j < entries.len() ==> text_lt(#[trigger] entries[i].0@, #[trigger] entries[j].0@)
}

/// Whether some entry has the given name.
pub open spec fn has_name<V>(entries: Seq<(String, V)>, name: Seq<char>) -> bool {
    exists|i: int| 0 <= i < entries.len() && #[trigger] entries[i].0@ == name
}

/// The position of the entry with the given name.
pub open spec fn name_index<V>(entries: Seq<(String, V)>, name: Seq<char>) -> int {
    choose|i: int| 0 <= i < entries.len() && #[trigger] entries[i].0@ == name
}

/// The map that a sequence of entries stands for.
pub open spec fn entries_map<V>(entries: Seq<(String, V)>) -> Map<Seq<char>, V> {
    Map::new(|name: Seq<char>| has_name(entries, name), |name: Seq<char>| entries[name_index(entries, name)].1)
}

/// No text precedes itself.
proof fn lemma_text_lt_irreflexive(a: Seq<char>)
    ensures
        !text_lt(a, a),
{
    lemma_bytes_lt_irreflexive(encode_utf8(a));
}

/// In entries with increasing names, a name stands at one position only.
proof fn lemma_name_unique<V>(entries: Seq<(String, V)>, i: int, j: int)
    requires
        names_increasing(entries),
        0 <= i < entries.len(),
        0 <= j < entries.len(),
        entries[i].0@ == entries[j].0@,
    ensures
        i == j,
{
    if i < j {
        assert(text_lt(entries[i].0@, entries[j].0@));
        lemma_text_lt_irreflexive(entries[i].0@);
    } else if j < i {
        assert(text_lt(entries[j].0@, entries[i].0@));
        lemma_text_lt_irreflexive(entries[i].0@);
    }
}

/// The entry that `name_index` picks is the one at a known position.
proof fn lemma_name_index<V>(entries: Seq<(String, V)>, i: int)
    requires
        names_increasing(entries),
        0 <= i < entries.len(),
    ensures
        has_name(entries, entries[i].0@),
        name_index(entries, entries[i].0@) == i,
{
    let name = entries[i].0@;
    assert(has_name(entries, name));
    let k: int = name_index(entries, name);
    lemma_name_unique(entries, i, k);
}

impl<V> CaptureMap<V> {
    #[verifier::type_invariant]
    spec fn sorted(self) -> bool {
        names_increasing(self.entries@)
    }

    /// An empty map.
    pub fn new() -> (res: Self)
        ensures
            res@ == Map::<Seq<char>, V>::empty(),
    {
        let res = CaptureMap { entries: Vec::new() };
        assert(entries_map(res.entries@) =~= Map::<Seq<char>, V>::empty());
        res
    }

    /// The entries, each name once, in increasing name order.
    pub fn into_entries(self) -> (res: Vec<(String, V)>)
        ensures
            names_increasing(res@),
            entries_map(res@) == self@,
    {
        proof {
            use_type_invariant(&self);
        }
        self.entries
    }

    /// The position at which `name` stands or would be inserted.
    fn position(&self, name: &str) -> (res: (usize, bool))
        ensures
            res.0 <= self.entries@.len(),
            forall|i: int| 0 <= i < res.0 ==> text_lt(#[trigger] self.entries@[i].0@, name@),
            res.1 ==> res.0 < self.entries@.len() && self.entries@[res.0 as int].0@ == name@,
            !res.1 ==> forall|i: int| res.0 <= i < self.entries@.len() ==> text_lt(name@, #[trigger] self.entries@[i].0@),
    {
        proof {
            use_type_invariant(self);
        }
        let mut i: usize = 0;
        while i < self.entries.len()
            invariant
                names_increasing(self.entries@),
                i <= self.entries@.len(),
                forall|k: int| 0 <= k < i ==> text_lt(#[trigger] self.entries@[k].0@, name@),
            decreases self.entries@.len() - i,
        {
            match text_order(self.entries[i].0.as_str(), name) {
                TextOrder::Less => {},
                TextOrder::Equal => {
                    return (i, true);
                },
                TextOrder::Greater => {
                    proof {
                        assert forall|k: int| i <= k < self.entries@.len() implies text_lt(name@, #[trigger] self.entries@[k].0@) by {
                            if k > i {
                                assert(text_lt(self.entries@[i as int].0@, self.entries@[k].0@));
                                lemma_bytes_lt_transitive(encode_utf8(name@), encode_utf8(self.entries@[i as int].0@), encode_utf8(self.entries@[k].0@));
                            }
                        }
                    }
                    return (i, false);
                },
            }
            i = i + 1;
        }
        (i, false)
    }

    /// Whether `name` has an entry.
    pub fn contains_key(&self, name: &str) -> (res: bool)
        ensures
            res == self@.contains_key(name@),
    {
        proof {
            use_type_invariant(self);
        }
        let (i, found) = self.position(name);
        proof {
            if !found && has_name(self.entries@, name@) {
                let k: int = name_index(self.entries@, name@);
                if k < i {
                    assert(text_lt(self.entries@[k].0@, name@));
                } else {
                    assert(text_lt(name@, self.entries@[k].0@));
                }
                lemma_text_lt_irreflexive(name@);
            }
        }
        found
    }

    /// The value stored under `name`, if any.
    pub fn get(&self, name: &str) -> (res: Option<&V>)
        ensures
            match res {
                Some(v) => self@.contains_key(name@) && *v == self@[name@],
                None => !self@.contains_key(name@),
            },
    {
        proof {
            use_type_invariant(self);
        }
        let (i, found) = self.position(name);
        if found {
            proof {
                lemma_name_index(self.entries@, i as int);
            }
            Some(&self.entries[i].1)
        } else {
            proof {
                if has_name(self.entries@, name@) {
                    let k: int = name_index(self.entries@, name@);
                    if k < i {
                        assert(text_lt(self.entries@[k].0@, name@));
                    } else {
                        assert(text_lt(name@, self.entries@[k].0@));
                    }
                    lemma_text_lt_irreflexive(name@);
                }
            }
            None
        }
    }

    /// Stores `value` under `name`, replacing the value stored there before.
    pub fn insert(&mut self, name: String, value: V)
        ensures
            final(self)@ == old(self)@.insert(name@, value),
    {
        proof {
            use_type_invariant(&*self);
        }
        let (i, found) = self.position(name.as_str());
        let ghost old_entries = self.entries@;
        let ghost key = name@;
        let mut entries: Vec<(String, V)> = Vec::new();
        std::mem::swap(&mut entries, &mut self.entries);
        if found {
            entries.set(i, (name, value));
            proof {
                let new_entries = entries@;
                assert(new_entries =~= old_entries.update(i as int, (new_entries[i as int].0, value)));
                assert forall|a: int, b: int| 0 <= a < b < new_entries.len() implies text_lt(#[trigger] new_entries[a].0@, #[trigger] new_entries[b].0@) by {
                    assert(old_entries[i as int].0@ == key);
                    assert(text_lt(old_entries[a].0@, old_entries[b].0@));
                }
                assert forall|n: Seq<char>| has_name(new_entries, n) == (has_name(old_entries, n) || n == key) by {
                    if has_name(new_entries, n) {
                        let k: int = choose|k: int| 0 <= k < new_entries.len() && #[trigger] new_entries[k].0@ == n;
                        assert(old_entries[k].0@ == n);
                    }
                    if has_name(old_entries, n) {
                        let k: int = choose|k: int| 0 <= k < old_entries.len() && #[trigger] old_entries[k].0@ == n;
                        assert(new_entries[k].0@ == n);
                    }
                    if n == key {
                        assert(new_entries[i as int].0@ == n);
                    }
                }
                assert forall|n: Seq<char>| #[trigger] has_name(new_entries, n) implies
                    entries_map(new_entries)[n] == entries_map(old_entries).insert(key, value)[n] by {
                    let k: int = name_index(new_entries, n);
                    assert(new_entries[k].0@ == n);
                    if n == key {
                        lemma_name_unique(new_entries, k, i as int);
                    } else {
                        assert(old_entries[k].0@ == n);
                        lemma_name_index(old_entries, k);
                        assert(has_name(old_entries, n));
                    }
                }
                assert(entries_map(new_entries) =~= entries_map(old_entries).insert(key, value));
            }
        } else {
            entries.insert(i, (name, value));
            proof {
                let new_entries = entries@;
                assert(new_entries =~= old_entries.insert(i as int, new_entries[i as int]));
                assert forall|a: int, b: int| 0 <= a < b < new_entries.len() implies text_lt(#[trigger] new_entries[a].0@, #[trigger] new_entries[b].0@) by {
                    if a < i && b < i {
                        assert(text_lt(old_entries[a].0@, old_entries[b].0@));
                    } else if a < i && b == i {
                        assert(text_lt(old_entries[a].0@, key));
                    } else if a < i {
                        assert(text_lt(old_entries[a].0@, old_entries[b - 1].0@));
                    } else if a == i {
                        assert(text_lt(key, old_entries[b - 1].0@));
                    } else {
                        assert(text_lt(old_entries[a - 1].0@, old_entries[b - 1].0@));
                    }
                }
            }
            proof {
                let new_entries = entries@;
                assert forall|n: Seq<char>| has_name(new_entries, n) == (has_name(old_entries, n) || n == key) by {
                    if has_name(new_entries, n) {
                        let k: int = choose|k: int| 0 <= k < new_entries.len() && #[trigger] new_entries[k].0@ == n;
                        if k < i {
                            assert(old_entries[k].0@ == n);
                        } else if k > i {
                            assert(old_entries[k - 1].0@ == n);
                        }
                    }
                    if has_name(old_entries, n) {
                        let k: int = choose|k: int| 0 <= k < old_entries.len() && #[trigger] old_entries[k].0@ == n;
                        if k < i {
                            assert(new_entries[k].0@ == n);
                        } else {
                            assert(new_entries[k + 1].0@ == n);
                        }
                    }
                    if n == key {
                        assert(new_entries[i as int].0@ == n);
                    }
                }
                assert forall|n: Seq<char>| #[trigger] has_name(new_entries, n) implies
                    entries_map(new_entries)[n] == entries_map(old_entries).insert(key, value)[n] by {
                    let k: int = name_index(new_entries, n);
                    assert(new_entries[k].0@ == n);
                    if k < i {
                        assert(old_entries[k].0@ == n);
                        lemma_name_index(old_entries, k);
                        assert(has_name(old_entries, n));
                        if n == key {
                            lemma_name_unique(new_entries, k, i as int);
                        }
                    } else if k > i {
                        assert(old_entries[k - 1].0@ == n);
                        lemma_name_index(old_entries, k - 1);
                        assert(has_name(old_entries, n));
                        if n == key {
                            lemma_name_unique(new_entries, k, i as int);
                        }
                    }
                }
                assert(entries_map(new_entries) =~= entries_map(old_entries).insert(key, value));
            }
        }
        self.entries = entries;
    }
}

impl<V> View for CaptureMap<V> {
    type V = Map<Seq<char>, V>;

    closed spec fn view(&self) -> Map<Seq<char>, V> {
        entries_map(self.entries@)
    }
}

} // verus!
