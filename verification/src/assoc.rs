use vstd::prelude::*;
use crate::compiler::string_is;

verus! {

/// A table from names to values, each name held once, kept in insertion order.
pub struct AssocList<V> {
    entries: Vec<(String, V)>,
}

/// Whether the keys of `s` are pairwise different.
pub open spec fn distinct_keys<V>(s: Seq<(String, V)>) -> bool {
    forall|i: int, j: int| 0 <= i < j < s.len() ==> s[i].0@ != s[j].0@
}

/// The position of `key` in `s`, if it is there.
pub open spec fn key_index<V>(s: Seq<(String, V)>, key: Seq<char>) -> int {
    choose|i: int| 0 <= i < s.len() && s[i].0@ == key
}

pub open spec fn has_key<V>(s: Seq<(String, V)>, key: Seq<char>) -> bool {
    exists|i: int| 0 <= i < s.len() && s[i].0@ == key
}

pub open spec fn entries_map<V>(s: Seq<(String, V)>) -> Map<Seq<char>, V> {
    Map::new(|k: Seq<char>| has_key(s, k), |k: Seq<char>| s[key_index(s, k)].1)
}

pub proof fn lemma_key_index<V>(s: Seq<(String, V)>, i: int)
    requires
        distinct_keys(s),
        0 <= i < s.len(),
    ensures
        has_key(s, s[i].0@),
        key_index(s, s[i].0@) == i,
        entries_map(s).contains_key(s[i].0@),
        entries_map(s)[s[i].0@] == s[i].1,
{
    assert(has_key(s, s[i].0@));
    let j = key_index(s, s[i].0@);
    if j != i {
        if j < i {
            assert(s[j].0@ != s[i].0@);
        } else {
            assert(s[i].0@ != s[j].0@);
        }
    }
}

impl<V> View for AssocList<V> {
    type V = Map<Seq<char>, V>;

    closed spec fn view(&self) -> Map<Seq<char>, V> {
        entries_map(self.entries@)
    }
}

impl<V> AssocList<V> {
    #[verifier::type_invariant]
    pub closed spec fn inv(&self) -> bool {
        distinct_keys(self.entries@)
    }

    /// The keys in insertion order.
    pub closed spec fn key_seq(&self) -> Seq<Seq<char>> {
        self.entries@.map_values(|e: (String, V)| e.0@)
    }

    pub proof fn lemma_keys(&self)
        requires
            self.inv(),
        ensures
            self.key_seq().no_duplicates(),
            self.key_seq().to_set() == self@.dom(),
            self@.dom().finite(),
            self@.dom().len() == self.key_seq().len(),
    {
        let s = self.entries@;
        let ks = self.key_seq();
        assert forall|i: int, j: int| 0 <= i < ks.len() && 0 <= j < ks.len() && i != j implies ks[i]
            != ks[j] by {
            if i < j {
                assert(s[i].0@ != s[j].0@);
            } else {
                assert(s[j].0@ != s[i].0@);
            }
        }
        assert forall|k: Seq<char>| #[trigger] ks.to_set().contains(k) <==> self@.dom().contains(k) by {
            if ks.contains(k) {
                let i = choose|i: int| 0 <= i < ks.len() && ks[i] == k;
                assert(s[i].0@ == k);
            }
            if has_key(s, k) {
                let i = choose|i: int| 0 <= i < s.len() && s[i].0@ == k;
                assert(ks[i] == k);
            }
        }
        assert(ks.to_set() =~= self@.dom());
        ks.unique_seq_to_set();
    }

    pub fn new() -> (r: Self)
        ensures
            r@ == Map::<Seq<char>, V>::empty(),
            r.key_seq() == Seq::<Seq<char>>::empty(),
    {
        let r = AssocList { entries: Vec::new() };
        assert(r@ =~= Map::<Seq<char>, V>::empty());
        assert(r.key_seq() =~= Seq::<Seq<char>>::empty());
        r
    }

    fn find(&self, key: &str) -> (r: Option<usize>)
        ensures
            match r {
                Some(i) => i < self.entries@.len() && self.entries@[i as int].0@ == key@,
                None => !has_key(self.entries@, key@),
            },
    {
        let mut i: usize = 0;
        while i < self.entries.len()
            invariant
                0 <= i <= self.entries@.len(),
                forall|j: int| 0 <= j < i ==> self.entries@[j].0@ != key@,
            decreases self.entries@.len() - i,
        {
            if string_is(&self.entries[i].0, key) {
                return Some(i);
            }
            i += 1;
        }
        None
    }

    pub fn contains_key(&self, key: &str) -> (r: bool)
        ensures
            r == self@.contains_key(key@),
    {
        self.find(key).is_some()
    }

    pub fn get(&self, key: &str) -> (r: Option<&V>)
        ensures
            match r {
                Some(v) => self@.contains_key(key@) && *v == self@[key@],
                None => !self@.contains_key(key@),
            },
    {
        proof {
            use_type_invariant(self);
        }
        match self.find(key) {
            Some(i) => {
                proof {
                    lemma_key_index(self.entries@, i as int);
                }
                Some(&self.entries[i].1)
            },
            None => None,
        }
    }

    /// Binds `key` to `value`: in place where the key is held, else at the end.
    pub fn insert(&mut self, key: String, value: V)
        ensures
            final(self)@ == old(self)@.insert(key@, value),
            old(self)@.contains_key(key@) ==> final(self).key_seq() == old(self).key_seq(),
            !old(self)@.contains_key(key@) ==> final(self).key_seq() == old(self).key_seq().push(
                key@,
            ),
    {
        proof {
            use_type_invariant(&*self);
        }
        let ghost before = self.entries@;
        let found = self.find(key.as_str());
        let mut entries: Vec<(String, V)> = Vec::new();
        std::mem::swap(&mut entries, &mut self.entries);
        match found {
            Some(i) => {
                proof {
                    lemma_key_index(before, i as int);
                }
                entries.set(i, (key, value));
            },
            None => {
                entries.push((key, value));
            },
        }
        proof {
            assert(distinct_keys(entries@)) by {
                assert forall|a: int, b: int| 0 <= a < b < entries@.len() implies entries@[a].0@
                    != entries@[b].0@ by {
                    if found is None && b == before.len() {
                        assert(before[a].0@ != key@);
                    } else if found is Some && (a == found->0 || b == found->0) {
                        let i = found->0 as int;
                        if a == i {
                            assert(before[a].0@ != before[b].0@);
                        } else {
                            assert(before[a].0@ != before[b].0@);
                        }
                    } else {
                        assert(before[a].0@ != before[b].0@);
                    }
                }
            }
            assert(entries_map(entries@) =~= entries_map(before).insert(key@, value)) by {
                assert forall|k: Seq<char>| #[trigger] has_key(entries@, k) <==> (has_key(before, k)
                    || k == key@) by {
                    if has_key(entries@, k) {
                        let j = choose|j: int| 0 <= j < entries@.len() && entries@[j].0@ == k;
                        if k != key@ {
                            assert(before[j].0@ == k);
                        }
                    }
                    if has_key(before, k) {
                        let j = choose|j: int| 0 <= j < before.len() && before[j].0@ == k;
                        assert(entries@[j].0@ == k);
                    }
                    if k == key@ {
                        match found {
                            Some(i) => assert(entries@[i as int].0@ == k),
                            None => assert(entries@[before.len() as int].0@ == k),
                        }
                    }
                }
                assert forall|k: Seq<char>| has_key(entries@, k) implies #[trigger] entries_map(
                    entries@,
                )[k] == entries_map(before).insert(key@, value)[k] by {
                    let j = key_index(entries@, k);
                    lemma_key_index(entries@, j);
                    if k != key@ {
                        lemma_key_index(before, j);
                    }
                }
            }
        }
        self.entries = entries;
        proof {
            let ks0 = before.map_values(|e: (String, V)| e.0@);
            let ks1 = self.entries@.map_values(|e: (String, V)| e.0@);
            match found {
                Some(i) => {
                    assert(ks1 =~= ks0);
                },
                None => {
                    assert(ks1 =~= ks0.push(key@));
                },
            }
        }
    }

    /// Removes `key`; gives back its value where it was held.
    pub fn remove(&mut self, key: &str) -> (r: Option<V>)
        ensures
            final(self)@ == old(self)@.remove(key@),
            match r {
                Some(v) => old(self)@.contains_key(key@) && v == old(self)@[key@],
                None => !old(self)@.contains_key(key@),
            },
            final(self).key_seq() == without(old(self).key_seq(), key@),
    {
        proof {
            use_type_invariant(&*self);
            self.lemma_keys();
        }
        let ghost before = self.entries@;
        match self.find(key) {
            None => {
                proof {
                    let ks = self.key_seq();
                    assert(self@.remove(key@) =~= self@);
                    assert forall|j: int| 0 <= j < ks.len() implies ks[j] != key@ by {
                        assert(before[j].0@ == ks[j]);
                    }
                    lemma_without_absent(ks, key@);
                }
                None
            },
            Some(i) => {
                let mut entries: Vec<(String, V)> = Vec::new();
                std::mem::swap(&mut entries, &mut self.entries);
                let (_, v) = entries.remove(i);
                proof {
                    lemma_key_index(before, i as int);
                    assert(entries@ =~= before.remove(i as int));
                    assert(distinct_keys(entries@)) by {
                        assert forall|a: int, b: int| 0 <= a < b < entries@.len() implies entries@[a].0@
                            != entries@[b].0@ by {
                            let a0 = if a < i { a } else { a + 1 };
                            let b0 = if b < i { b } else { b + 1 };
                            assert(entries@[a] == before[a0] && entries@[b] == before[b0]);
                            assert(before[a0].0@ != before[b0].0@);
                        }
                    }
                    assert(entries_map(entries@) =~= entries_map(before).remove(key@)) by {
                        assert forall|k: Seq<char>| #[trigger] has_key(entries@, k) <==> (has_key(
                            before,
                            k,
                        ) && k != key@) by {
                            if has_key(entries@, k) {
                                let j = choose|j: int| 0 <= j < entries@.len() && entries@[j].0@ == k;
                                let j0 = if j < i { j } else { j + 1 };
                                assert(before[j0].0@ == k);
                                assert(before[j0].0@ != before[i as int].0@);
                            }
                            if has_key(before, k) && k != key@ {
                                let j = choose|j: int| 0 <= j < before.len() && before[j].0@ == k;
                                assert(j != i);
                                if j < i {
                                    assert(entries@[j].0@ == k);
                                } else {
                                    assert(entries@[j - 1].0@ == k);
                                }
                            }
                        }
                        assert forall|k: Seq<char>| has_key(entries@, k) implies #[trigger] entries_map(
                            entries@,
                        )[k] == entries_map(before)[k] by {
                            let j = key_index(entries@, k);
                            lemma_key_index(entries@, j);
                            let j0 = if j < i { j } else { j + 1 };
                            lemma_key_index(before, j0);
                        }
                    }
                }
                self.entries = entries;
                proof {
                    let ks0 = before.map_values(|e: (String, V)| e.0@);
                    let ks1 = self.entries@.map_values(|e: (String, V)| e.0@);
                    assert(ks1 =~= ks0.remove(i as int));
                    lemma_without_once(ks0, i as int, key@);
                }
                Some(v)
            },
        }
    }

    pub fn len(&self) -> (r: usize)
        ensures
            r == self.key_seq().len(),
            r == self@.dom().len(),
    {
        proof {
            use_type_invariant(self);
            self.lemma_keys();
        }
        self.entries.len()
    }

    pub fn is_empty(&self) -> (r: bool)
        ensures
            r == (self@.dom().len() == 0),
            r == (self.key_seq().len() == 0),
    {
        proof {
            use_type_invariant(self);
            self.lemma_keys();
        }
        self.entries.len() == 0
    }

    /// The keys, in insertion order.
    pub fn keys(&self) -> (r: Vec<String>)
        ensures
            r@.len() == self.key_seq().len(),
            forall|j: int| 0 <= j < r@.len() ==> #[trigger] r@[j]@ == self.key_seq()[j],
    {
        let mut r: Vec<String> = Vec::new();
        let mut i: usize = 0;
        while i < self.entries.len()
            invariant
                0 <= i <= self.entries@.len(),
                r@.len() == i,
                self.key_seq().len() == self.entries@.len(),
                forall|j: int| 0 <= j < i ==> #[trigger] r@[j]@ == self.key_seq()[j],
            decreases self.entries@.len() - i,
        {
            let k = self.entries[i].0.clone();
            assert(self.key_seq()[i as int] == self.entries@[i as int].0@);
            r.push(k);
            i += 1;
        }
        r
    }
}

/// `s` with every occurrence of `x` left out.
pub open spec fn without(s: Seq<Seq<char>>, x: Seq<char>) -> Seq<Seq<char>>
    decreases s.len(),
{
    if s.len() == 0 {
        s
    } else if s.last() == x {
        without(s.drop_last(), x)
    } else {
        without(s.drop_last(), x).push(s.last())
    }
}

proof fn lemma_without_absent(ks: Seq<Seq<char>>, key: Seq<char>)
    requires
        forall|j: int| 0 <= j < ks.len() ==> ks[j] != key,
    ensures
        without(ks, key) == ks,
    decreases ks.len(),
{
    if ks.len() > 0 {
        lemma_without_absent(ks.drop_last(), key);
        assert(ks.drop_last().push(ks.last()) =~= ks);
    }
}

proof fn lemma_without_once(ks: Seq<Seq<char>>, i: int, key: Seq<char>)
    requires
        0 <= i < ks.len(),
        ks.no_duplicates(),
        ks[i] == key,
    ensures
        without(ks, key) == ks.remove(i),
    decreases ks.len(),
{
    if i == ks.len() - 1 {
        assert forall|j: int| 0 <= j < ks.drop_last().len() implies ks.drop_last()[j] != key by {
            assert(ks[j] != ks[i]);
        }
        lemma_without_absent(ks.drop_last(), key);
        assert(ks.remove(i) =~= ks.drop_last());
    } else {
        let d = ks.drop_last();
        assert(d[i] == key);
        assert(d.no_duplicates());
        lemma_without_once(d, i, key);
        assert(ks.last() != key);
        assert(ks.remove(i) =~= d.remove(i).push(ks.last()));
    }
}

} // verus!
