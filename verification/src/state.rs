//! The current value of every cell that has run successfully, by name.
use vstd::prelude::*;

use crate::error::RuntimeError;
use crate::text::{push_str, str_eq};

verus! {

/// Cell values by cell name. Each name appears at most once.
pub struct StateVault<T> {
    values: Vec<(String, T)>,
}

pub open spec fn missing_message(name: Seq<char>) -> Seq<char> {
    "cell '"@ + name + "' has no current value"@
}

impl<T> View for StateVault<T> {
    type V = Map<Seq<char>, T>;

    closed spec fn view(&self) -> Map<Seq<char>, T> {
        Map::new(
            |k: Seq<char>| exists|i: int| 0 <= i < self.values@.len() && self.values@[i].0@ == k,
            |k: Seq<char>| self.values@[choose|i: int| 0 <= i < self.values@.len() && self.values@[i].0@ == k].1,
        )
    }
}

impl<T> StateVault<T> {
    #[verifier::type_invariant]
    closed spec fn keys_distinct(self) -> bool {
        forall|a: int, b: int| 0 <= a < self.values@.len() && 0 <= b < self.values@.len() && a != b
            ==> self.values@[a].0@ != self.values@[b].0@
    }

    /// The entry for `k` is at position `i`.
    proof fn lemma_entry(&self, i: int)
        requires
            self.keys_distinct(),
            0 <= i < self.values@.len(),
        ensures
            self@.contains_key(self.values@[i].0@),
            self@[self.values@[i].0@] == self.values@[i].1,
    {
        let k = self.values@[i].0@;
        let j = choose|j: int| 0 <= j < self.values@.len() && self.values@[j].0@ == k;
    }

    /// The position of `name`, if it has an entry.
    fn find(&self, name: &str) -> (r: Option<usize>)
        ensures
            r matches Some(i) ==> i < self.values@.len() && self.values@[i as int].0@ == name@,
            r is None ==> !self@.contains_key(name@),
    {
        let mut i: usize = 0;
        while i < self.values.len()
            invariant
                i <= self.values@.len(),
                forall|j: int| 0 <= j < i ==> self.values@[j].0@ != name@,
            decreases self.values@.len() - i,
        {
            if str_eq(self.values[i].0.as_str(), name) {
                return Some(i);
            }
            i = i + 1;
        }
        None
    }

    /// An empty vault.
    pub fn new() -> (v: Self)
        ensures
            v@ == Map::<Seq<char>, T>::empty(),
    {
        let v = StateVault { values: Vec::new() };
        v
    }

    /// Stores `value` as the current value of `name`, replacing any previous one.
    pub fn insert(&mut self, name: &str, value: T)
        ensures
            final(self)@ == old(self)@.insert(name@, value),
    {
        proof {
            use_type_invariant(&*self);
        }
        let ghost before = *self;
        match self.find(name) {
            Some(i) => {
                let mut vals: Vec<(String, T)> = Vec::new();
                std::mem::swap(&mut vals, &mut self.values);
                let key = vals[i].0.clone();
                vals.set(i, (key, value));
                self.values = vals;
                proof {
                    assert forall|k: Seq<char>| #[trigger] self@.contains_key(k) == before@.insert(name@, value).contains_key(k) by {
                        if before@.contains_key(k) {
                            let j = choose|j: int| 0 <= j < before.values@.len() && before.values@[j].0@ == k;
                            assert(self.values@[j].0@ == k);
                        }
                        if self@.contains_key(k) {
                            let j = choose|j: int| 0 <= j < self.values@.len() && self.values@[j].0@ == k;
                        }
                    }
                    assert forall|k: Seq<char>| self@.contains_key(k) implies self@[k] == before@.insert(name@, value)[k] by {
                        let j = choose|j: int| 0 <= j < self.values@.len() && self.values@[j].0@ == k;
                        self.lemma_entry(j);
                        if k != name@ {
                            before.lemma_entry(j);
                        }
                    }
                }
            }
            None => {
                let mut vals: Vec<(String, T)> = Vec::new();
                std::mem::swap(&mut vals, &mut self.values);
                vals.push((name.to_owned(), value));
                proof {
                    assert forall|a: int, b: int| 0 <= a < vals@.len() && 0 <= b < vals@.len() && a != b
                        implies vals@[a].0@ != vals@[b].0@ by {}
                }
                self.values = vals;
                proof {
                    let n = before.values@.len() as int;
                    assert forall|k: Seq<char>| #[trigger] self@.contains_key(k) == before@.insert(name@, value).contains_key(k) by {
                        if before@.contains_key(k) {
                            let j = choose|j: int| 0 <= j < before.values@.len() && before.values@[j].0@ == k;
                            assert(self.values@[j].0@ == k);
                        }
                        if k == name@ {
                            assert(self.values@[n].0@ == k);
                        }
                        if self@.contains_key(k) && k != name@ {
                            let j = choose|j: int| 0 <= j < self.values@.len() && self.values@[j].0@ == k;
                        }
                    }
                    assert forall|k: Seq<char>| self@.contains_key(k) implies self@[k] == before@.insert(name@, value)[k] by {
                        let j = choose|j: int| 0 <= j < self.values@.len() && self.values@[j].0@ == k;
                        self.lemma_entry(j);
                        if k != name@ {
                            before.lemma_entry(j);
                        }
                    }
                }
            }
        }
    }

    /// The current value of `name`, or a `missing_value` error naming it.
    pub fn get(&self, name: &str) -> (r: Result<&T, RuntimeError>)
        ensures
            match r {
                Ok(v) => self@.contains_key(name@) && *v == self@[name@],
                Err(e) => !self@.contains_key(name@) && e.is("missing_value"@, missing_message(name@), Some(name@)),
            },
    {
        proof {
            use_type_invariant(self);
        }
        match self.find(name) {
            Some(i) => {
                proof {
                    self.lemma_entry(i as int);
                }
                Ok(&self.values[i].1)
            }
            None => {
                let mut m = String::new();
                push_str(&mut m, "cell '");
                push_str(&mut m, name);
                push_str(&mut m, "' has no current value");
                Err(RuntimeError::new("missing_value", m, Some(name)))
            }
        }
    }

    /// Forgets the value of `name`.
    pub fn remove(&mut self, name: &str)
        ensures
            final(self)@ == old(self)@.remove(name@),
    {
        proof {
            use_type_invariant(&*self);
        }
        let ghost before = *self;
        match self.find(name) {
            Some(i) => {
                let mut vals: Vec<(String, T)> = Vec::new();
                std::mem::swap(&mut vals, &mut self.values);
                vals.remove(i);
                proof {
                    assert forall|j: int| 0 <= j < vals@.len() implies
                        #[trigger] vals@[j] == before.values@[if j < i { j } else { j + 1 }] by {}
                }
                self.values = vals;
                proof {
                    assert forall|j: int| 0 <= j < self.values@.len() implies
                        #[trigger] self.values@[j] == before.values@[if j < i { j } else { j + 1 }] by {}
                    assert forall|k: Seq<char>| #[trigger] self@.contains_key(k) == before@.remove(name@).contains_key(k) by {
                        if self@.contains_key(k) {
                            let j = choose|j: int| 0 <= j < self.values@.len() && self.values@[j].0@ == k;
                            let jj = if j < i { j } else { j + 1 };
                        }
                        if before@.contains_key(k) && k != name@ {
                            let j = choose|j: int| 0 <= j < before.values@.len() && before.values@[j].0@ == k;
                            let jj = if j < i { j } else { j - 1 };
                            assert(self.values@[jj].0@ == k);
                        }
                    }
                    assert forall|k: Seq<char>| self@.contains_key(k) implies self@[k] == before@.remove(name@)[k] by {
                        let j = choose|j: int| 0 <= j < self.values@.len() && self.values@[j].0@ == k;
                        self.lemma_entry(j);
                        let jj = if j < i { j } else { j + 1 };
                        before.lemma_entry(jj);
                    }
                }
            }
            None => {},
        }
    }

    /// Whether `name` has a current value.
    pub fn contains(&self, name: &str) -> (r: bool)
        ensures
            r == self@.contains_key(name@),
    {
        proof {
            use_type_invariant(self);
        }
        match self.find(name) {
            Some(i) => {
                proof {
                    self.lemma_entry(i as int);
                }
                true
            }
            None => false,
        }
    }
}

impl<T> Default for StateVault<T> {
    fn default() -> (v: Self)
        ensures
            v@ == Map::<Seq<char>, T>::empty(),
    {
        StateVault::new()
    }
}

/// A read gives back the last write: after `insert(name, value)` the vault
/// holds `value` for `name` and every other name as before.
pub proof fn lemma_read_after_insert<T>(before: StateVault<T>, after: StateVault<T>, name: Seq<char>, value: T, other: Seq<char>)
    requires
        after@ == before@.insert(name, value),
    ensures
        after@.contains_key(name),
        after@[name] == value,
        other != name ==> (after@.contains_key(other) == before@.contains_key(other)),
        other != name && before@.contains_key(other) ==> after@[other] == before@[other],
{
}

/// A removed name has no value, and every other name keeps its own.
pub proof fn lemma_read_after_remove<T>(before: StateVault<T>, after: StateVault<T>, name: Seq<char>, other: Seq<char>)
    requires
        after@ == before@.remove(name),
    ensures
        !after@.contains_key(name),
        other != name ==> (after@.contains_key(other) == before@.contains_key(other)),
        other != name && before@.contains_key(other) ==> after@[other] == before@[other],
{
}

} // verus!
