//! A map from names to values, kept as a list of entries in which no name
//! occurs twice.

use vstd::prelude::*;

verus! {

/// `e[i]` is an entry named `k`.
pub open spec fn has_key<V>(e: Seq<(String, V)>, k: Seq<char>, i: int) -> bool {
    0 <= i < e.len() && e[i].0@ == k
}

/// No two entries of `e` have the same name.
pub open spec fn keys_distinct<V>(e: Seq<(String, V)>) -> bool {
    forall|i: int, j: int|
        0 <= i < e.len() && 0 <= j < e.len() && i != j ==> #[trigger] e[i].0@ != #[trigger] e[j].0@
}

/// The map that the entries `e` stand for.
pub open spec fn map_of<V>(e: Seq<(String, V)>) -> Map<Seq<char>, V> {
    Map::new(
        |k: Seq<char>| exists|i: int| #[trigger] has_key(e, k, i),
        |k: Seq<char>| e[choose|i: int| #[trigger] has_key(e, k, i)].1,
    )
}

/// In entries with distinct names, the map holds each entry's value under its
/// name.
proof fn lemma_entry<V>(e: Seq<(String, V)>, i: int)
    requires
        keys_distinct(e),
        0 <= i < e.len(),
    ensures
        map_of(e).contains_key(e[i].0@),
        map_of(e)[e[i].0@] == e[i].1,
{
    let k = e[i].0@;
    assert(has_key(e, k, i));
    let j = choose|j: int| #[trigger] has_key(e, k, j);
    assert(has_key(e, k, j));
    if j != i {
        assert(e[i].0@ != e[j].0@);
    }
}

/// A map from names to values.
pub struct NameMap<V> {
    entries: Vec<(String, V)>,
}

impl<V> View for NameMap<V> {
    type V = Map<Seq<char>, V>;

    closed spec fn view(&self) -> Map<Seq<char>, V> {
        map_of(self.entries@)
    }
}

impl<V> NameMap<V> {
    #[verifier::type_invariant]
    spec fn inv(&self) -> bool {
        keys_distinct(self.entries@)
    }
}

impl<V: Copy> NameMap<V> {
    /// An empty map.
    pub fn new() -> (m: Self)
        ensures
            m@ == Map::<Seq<char>, V>::empty(),
    {
        let m = NameMap { entries: Vec::new() };
        assert(m@ =~= Map::<Seq<char>, V>::empty());
        m
    }

    /// The value under `name`, if there is one.
    pub fn get(&self, name: &str) -> (r: Option<V>)
        ensures
            r == (if self@.contains_key(name@) {
                Some(self@[name@])
            } else {
                None
            }),
    {
        proof {
            use_type_invariant(self);
        }
        let key = name.to_owned();
        match position_in(&self.entries, &key) {
            Some(i) => {
                proof {
                    lemma_entry(self.entries@, i as int);
                }
                Some(self.entries[i].1)
            },
            None => None,
        }
    }

    /// Whether there is a value under `name`.
    pub fn contains_key(&self, name: &str) -> (b: bool)
        ensures
            b == self@.contains_key(name@),
    {
        proof {
            use_type_invariant(self);
        }
        let key = name.to_owned();
        match position_in(&self.entries, &key) {
            Some(i) => {
                proof {
                    lemma_entry(self.entries@, i as int);
                }
                true
            },
            None => false,
        }
    }

    /// Puts `value` under `name`, in place of what was there.
    pub fn insert(&mut self, name: String, value: V)
        ensures
            final(self)@ == old(self)@.insert(name@, value),
    {
        proof {
            use_type_invariant(&*self);
        }
        let ghost old_map = self@;
        let mut entries: Vec<(String, V)> = Vec::new();
        std::mem::swap(&mut entries, &mut self.entries);
        let ghost e0 = entries@;
        assert(map_of(e0) == old_map);
        match position_in(&entries, &name) {
            Some(i) => {
                let key = entries[i].0.clone();
                entries.set(i, (key, value));
                proof {
                    let e1 = entries@;
                    assert(keys_distinct(e1)) by {
                        assert forall|a: int, b: int|
                            0 <= a < e1.len() && 0 <= b < e1.len() && a != b implies #[trigger] e1[a].0@
                            != #[trigger] e1[b].0@ by {
                            assert(e0[a].0@ != e0[b].0@);
                        }
                    }
                    assert forall|k: Seq<char>| #[trigger]
                        map_of(e1).contains_key(k) == old_map.insert(name@, value).contains_key(k)
                        by {
                        if map_of(e1).contains_key(k) {
                            let j = choose|j: int| #[trigger] has_key(e1, k, j);
                            assert(has_key(e1, k, j));
                            assert(has_key(e0, k, j));
                        }
                        if old_map.contains_key(k) {
                            let j = choose|j: int| #[trigger] has_key(e0, k, j);
                            assert(has_key(e0, k, j));
                            assert(has_key(e1, k, j));
                        }
                        if k == name@ {
                            assert(has_key(e1, k, i as int));
                        }
                    }
                    assert forall|k: Seq<char>| #[trigger]
                        map_of(e1).contains_key(k) implies map_of(e1)[k] == old_map.insert(
                        name@,
                        value,
                    )[k] by {
                        let j = choose|j: int| #[trigger] has_key(e1, k, j);
                        assert(has_key(e1, k, j));
                        lemma_entry(e1, j);
                        lemma_entry(e0, j);
                    }
                    assert(map_of(e1) =~= old_map.insert(name@, value));
                }
            },
            None => {
                let ghost nk = name@;
                entries.push((name, value));
                proof {
                    let e1 = entries@;
                    assert(keys_distinct(e1)) by {
                        assert forall|a: int, b: int|
                            0 <= a < e1.len() && 0 <= b < e1.len() && a != b implies #[trigger] e1[a].0@
                            != #[trigger] e1[b].0@ by {
                            if a < e0.len() && b < e0.len() {
                                assert(e0[a].0@ != e0[b].0@);
                            } else if a < e0.len() {
                                assert(has_key(e0, e1[a].0@, a));
                            } else {
                                assert(has_key(e0, e1[b].0@, b));
                            }
                        }
                    }
                    assert forall|k: Seq<char>| #[trigger]
                        map_of(e1).contains_key(k) == old_map.insert(nk, value).contains_key(k) by {
                        if map_of(e1).contains_key(k) {
                            let j = choose|j: int| #[trigger] has_key(e1, k, j);
                            assert(has_key(e1, k, j));
                            if j < e0.len() {
                                assert(has_key(e0, k, j));
                            }
                        }
                        if old_map.contains_key(k) {
                            let j = choose|j: int| #[trigger] has_key(e0, k, j);
                            assert(has_key(e0, k, j));
                            assert(has_key(e1, k, j));
                        }
                        if k == nk {
                            assert(has_key(e1, k, e0.len() as int));
                        }
                    }
                    assert forall|k: Seq<char>| #[trigger]
                        map_of(e1).contains_key(k) implies map_of(e1)[k] == old_map.insert(
                        nk,
                        value,
                    )[k] by {
                        let j = choose|j: int| #[trigger] has_key(e1, k, j);
                        assert(has_key(e1, k, j));
                        lemma_entry(e1, j);
                        if j < e0.len() {
                            lemma_entry(e0, j);
                        }
                    }
                    assert(map_of(e1) =~= old_map.insert(nk, value));
                }
            },
        }
        self.entries = entries;
    }

    /// Takes away what is under `name`, if anything.
    pub fn remove(&mut self, name: &str)
        ensures
            final(self)@ == old(self)@.remove(name@),
    {
        proof {
            use_type_invariant(&*self);
        }
        let ghost old_map = self@;
        let mut entries: Vec<(String, V)> = Vec::new();
        std::mem::swap(&mut entries, &mut self.entries);
        let ghost e0 = entries@;
        let key = name.to_owned();
        match position_in(&entries, &key) {
            Some(i) => {
                let _ = entries.remove(i);
                proof {
                    let e1 = entries@;
                    assert(e1 =~= e0.remove(i as int));
                    assert(forall|a: int|
                        0 <= a < e1.len() ==> #[trigger] e1[a] == e0[if a < i {
                            a
                        } else {
                            a + 1
                        }]);
                    assert(keys_distinct(e1)) by {
                        assert forall|a: int, b: int|
                            0 <= a < e1.len() && 0 <= b < e1.len() && a != b implies #[trigger] e1[a].0@
                            != #[trigger] e1[b].0@ by {
                            let a0 = if a < i {
                                a
                            } else {
                                a + 1
                            };
                            let b0 = if b < i {
                                b
                            } else {
                                b + 1
                            };
                            assert(e0[a0].0@ != e0[b0].0@);
                        }
                    }
                    assert forall|k: Seq<char>| #[trigger]
                        map_of(e1).contains_key(k) == old_map.remove(name@).contains_key(k) by {
                        if map_of(e1).contains_key(k) {
                            let j = choose|j: int| #[trigger] has_key(e1, k, j);
                            assert(has_key(e1, k, j));
                            let j0 = if j < i {
                                j
                            } else {
                                j + 1
                            };
                            assert(has_key(e0, k, j0));
                            assert(e0[j0].0@ != e0[i as int].0@);
                        }
                        if old_map.contains_key(k) && k != name@ {
                            let j = choose|j: int| #[trigger] has_key(e0, k, j);
                            assert(has_key(e0, k, j));
                            assert(j != i);
                            let j1 = if j < i {
                                j
                            } else {
                                j - 1
                            };
                            assert(has_key(e1, k, j1));
                        }
                    }
                    assert forall|k: Seq<char>| #[trigger]
                        map_of(e1).contains_key(k) implies map_of(e1)[k] == old_map.remove(
                        name@,
                    )[k] by {
                        let j = choose|j: int| #[trigger] has_key(e1, k, j);
                        assert(has_key(e1, k, j));
                        lemma_entry(e1, j);
                        let j0 = if j < i {
                            j
                        } else {
                            j + 1
                        };
                        lemma_entry(e0, j0);
                    }
                    assert(map_of(e1) =~= old_map.remove(name@));
                }
            },
            None => {
                assert(old_map.remove(name@) =~= old_map);
            },
        }
        self.entries = entries;
    }

    /// The names that have values, each once.
    pub fn keys(&self) -> (ks: Vec<String>)
        ensures
            forall|k: Seq<char>|
                self@.contains_key(k) <==> exists|i: int| 0 <= i < ks@.len() && #[trigger] ks@[i]@ == k,
            forall|i: int, j: int|
                0 <= i < ks@.len() && 0 <= j < ks@.len() && i != j ==> #[trigger] ks@[i]@
                    != #[trigger] ks@[j]@,
    {
        proof {
            use_type_invariant(self);
        }
        let n = self.entries.len();
        let mut ks: Vec<String> = Vec::new();
        let mut i: usize = 0;
        while i < n
            invariant
                0 <= i <= n,
                n == self.entries@.len(),
                ks@.len() == i,
                forall|j: int| 0 <= j < i ==> #[trigger] ks@[j]@ == self.entries@[j].0@,
            decreases n - i,
        {
            ks.push(self.entries[i].0.clone());
            i = i + 1;
        }
        assert forall|k: Seq<char>|
            (exists|i: int| 0 <= i < ks@.len() && #[trigger] ks@[i]@ == k) implies self@.contains_key(
            k,
        ) by {
            let i = choose|i: int| 0 <= i < ks@.len() && #[trigger] ks@[i]@ == k;
            assert(has_key(self.entries@, k, i));
        }
        assert forall|k: Seq<char>|
            self@.contains_key(k) implies exists|i: int| 0 <= i < ks@.len() && #[trigger] ks@[i]@ == k by {
            let j = choose|j: int| #[trigger] has_key(self.entries@, k, j);
            assert(has_key(self.entries@, k, j));
            assert(ks@[j]@ == k);
        }
        assert forall|a: int, b: int|
            0 <= a < ks@.len() && 0 <= b < ks@.len() && a != b implies #[trigger] ks@[a]@
            != #[trigger] ks@[b]@ by {
            assert(self.entries@[a].0@ != self.entries@[b].0@);
        }
        ks
    }
}

/// The index of the entry named `name` in `entries`, entries whose names
/// are distinct.
fn position_in<V>(entries: &Vec<(String, V)>, name: &String) -> (r: Option<usize>)
    requires
        keys_distinct(entries@),
    ensures
        match r {
            Some(i) => i < entries@.len() && entries@[i as int].0@ == name@,
            None => !map_of(entries@).contains_key(name@),
        },
{
    let n = entries.len();
    let mut i: usize = 0;
    while i < n
        invariant
            0 <= i <= n,
            n == entries@.len(),
            forall|j: int| 0 <= j < i ==> entries@[j].0@ != name@,
        decreases n - i,
    {
        if entries[i].0 == *name {
            return Some(i);
        }
        i = i + 1;
    }
    assert(!map_of(entries@).contains_key(name@)) by {
        if map_of(entries@).contains_key(name@) {
            let j = choose|j: int| #[trigger] has_key(entries@, name@, j);
            assert(has_key(entries@, name@, j));
        }
    }
    None
}

} // verus!
