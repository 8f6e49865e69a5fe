use vstd::prelude::*;

verus! {

/// A finite set of names, each held once, kept in insertion order.
pub struct NameSet {
    names: Vec<String>,
}

/// The texts of a sequence of strings.
pub open spec fn strings_view(s: Seq<String>) -> Seq<Seq<char>> {
    s.map_values(|x: String| x@)
}

pub proof fn lemma_strings_view(s: Seq<String>)
    ensures
        strings_view(s).len() == s.len(),
        forall|i: int| 0 <= i < s.len() ==> #[trigger] strings_view(s)[i] == s[i]@,
{
}

/// Whether the names in `s` are pairwise different.
pub open spec fn distinct_names(s: Seq<String>) -> bool {
    forall|i: int, j: int| 0 <= i < j < s.len() ==> s[i]@ != s[j]@
}

impl View for NameSet {
    type V = Set<Seq<char>>;

    closed spec fn view(&self) -> Set<Seq<char>> {
        Set::new(|x: Seq<char>| exists|i: int| 0 <= i < self.names@.len() && self.names@[i]@ == x)
    }
}

impl NameSet {
    #[verifier::type_invariant]
    pub closed spec fn inv(&self) -> bool {
        distinct_names(self.names@)
    }

    /// The names in insertion order.
    pub closed spec fn seq(&self) -> Seq<Seq<char>> {
        strings_view(self.names@)
    }

    pub proof fn lemma_seq_view(&self)
        requires
            self.inv(),
        ensures
            self.seq().to_set() == self@,
            self.seq().no_duplicates(),
            self@.finite(),
            self@.len() == self.seq().len(),
    {
        assert forall|x: Seq<char>| #[trigger] self@.contains(x) implies self.seq().contains(x) by {
            let i = choose|i: int| 0 <= i < self.names@.len() && self.names@[i]@ == x;
            assert(self.seq()[i] == x);
        }
        assert forall|x: Seq<char>| #[trigger] self.seq().contains(x) implies self@.contains(x) by {
            let i = choose|i: int| 0 <= i < self.seq().len() && self.seq()[i] == x;
            assert(self.names@[i]@ == x);
        }
        assert(self.seq().to_set() =~= self@);
        self.seq().unique_seq_to_set();
    }

    pub fn new() -> (s: Self)
        ensures
            s@ == Set::<Seq<char>>::empty(),
    {
        let s = NameSet { names: Vec::new() };
        assert(s@ =~= Set::<Seq<char>>::empty());
        s
    }

    /// The set holding just `name`.
    pub fn singleton(name: &str) -> (s: Self)
        ensures
            s@ == Set::<Seq<char>>::empty().insert(name@),
    {
        let mut s = NameSet::new();
        s.insert(name.to_owned());
        s
    }

    pub fn contains(&self, name: &str) -> (r: bool)
        ensures
            r == self@.contains(name@),
    {
        let target = name.to_owned();
        let mut i: usize = 0;
        while i < self.names.len()
            invariant
                target@ == name@,
                0 <= i <= self.names@.len(),
                forall|j: int| 0 <= j < i ==> self.names@[j]@ != name@,
            decreases self.names@.len() - i,
        {
            if self.names[i] == target {
                assert(self@.contains(name@) == (exists|j: int|
                    0 <= j < self.names@.len() && self.names@[j]@ == name@));
                return true;
            }
            i += 1;
        }
        false
    }

    pub fn contains_string(&self, name: &String) -> (r: bool)
        ensures
            r == self@.contains(name@),
    {
        self.contains(name.as_str())
    }

    /// Adds `name`; tells whether it was new.
    pub fn insert(&mut self, name: String) -> (added: bool)
        ensures
            final(self)@ == old(self)@.insert(name@),
            added == !old(self)@.contains(name@),
    {
        proof {
            use_type_invariant(&*self);
        }
        if self.contains(name.as_str()) {
            assert(self@.insert(name@) =~= self@);
            false
        } else {
            let ghost before = self.names@;
            let mut names: Vec<String> = Vec::new();
            std::mem::swap(&mut names, &mut self.names);
            names.push(name);
            proof {
                assert(distinct_names(names@)) by {
                    assert forall|i: int, j: int| 0 <= i < j < names@.len() implies names@[i]@
                        != names@[j]@ by {
                        if j == before.len() {
                            assert(!old(self)@.contains(names@[j]@));
                            if names@[i]@ == names@[j]@ {
                                assert(before[i]@ == name@);
                            }
                        } else {
                            assert(before[i] == names@[i] && before[j] == names@[j]);
                        }
                    }
                }
            }
            self.names = names;
            proof {
                assert(distinct_names(self.names@)) by {
                    assert forall|i: int, j: int| 0 <= i < j < self.names@.len() implies self.names@[i]@
                        != self.names@[j]@ by {
                        if j == before.len() {
                            assert(!old(self)@.contains(self.names@[j]@));
                            if self.names@[i]@ == self.names@[j]@ {
                                assert(before[i]@ == name@);
                            }
                        } else {
                            assert(before[i] == self.names@[i] && before[j] == self.names@[j]);
                        }
                    }
                }
                assert forall|x: Seq<char>| self@.contains(x) == old(self)@.insert(name@).contains(x) by {
                    if x == name@ {
                        assert(self.names@[before.len() as int]@ == x);
                    }
                    if old(self)@.contains(x) {
                        let i = choose|i: int| 0 <= i < before.len() && before[i]@ == x;
                        assert(self.names@[i]@ == x);
                    }
                    if self@.contains(x) {
                        let i = choose|i: int| 0 <= i < self.names@.len() && self.names@[i]@ == x;
                        if i < before.len() {
                            assert(before[i]@ == x);
                        }
                    }
                }
                assert(self@ =~= old(self)@.insert(name@));
            }
            true
        }
    }

    /// Where `name` sits, if it is held.
    fn position(&self, name: &str) -> (r: Option<usize>)
        ensures
            match r {
                Some(i) => i < self.names@.len() && self.names@[i as int]@ == name@,
                None => !self@.contains(name@),
            },
    {
        let target = name.to_owned();
        let mut i: usize = 0;
        while i < self.names.len()
            invariant
                target@ == name@,
                0 <= i <= self.names@.len(),
                forall|j: int| 0 <= j < i ==> self.names@[j]@ != name@,
            decreases self.names@.len() - i,
        {
            if self.names[i] == target {
                return Some(i);
            }
            i += 1;
        }
        None
    }

    /// Removes `name`; tells whether it was there.
    pub fn remove(&mut self, name: &str) -> (removed: bool)
        ensures
            final(self)@ == old(self)@.remove(name@),
            removed == old(self)@.contains(name@),
    {
        proof {
            use_type_invariant(&*self);
        }
        match self.position(name) {
            None => {
                assert(self@ =~= old(self)@.remove(name@));
                false
            },
            Some(i) => {
                let ghost before = self.names@;
                assert(distinct_names(before));
                let mut names: Vec<String> = Vec::new();
                std::mem::swap(&mut names, &mut self.names);
                names.remove(i);
                proof {
                    assert(names@ =~= before.remove(i as int));
                    assert forall|a: int, b: int| 0 <= a < b < names@.len() implies names@[a]@
                        != names@[b]@ by {
                        let a0 = if a < i { a } else { a + 1 };
                        let b0 = if b < i { b } else { b + 1 };
                        assert(names@[a] == before[a0] && names@[b] == before[b0]);
                    }
                }
                self.names = names;
                proof {
                    assert forall|x: Seq<char>| self@.contains(x) == old(self)@.remove(name@).contains(x) by {
                        if self@.contains(x) {
                            let k = choose|k: int| 0 <= k < self.names@.len() && self.names@[k]@ == x;
                            let k0 = if k < i { k } else { k + 1 };
                            assert(self.names@[k] == before[k0]);
                            assert(old(self)@.contains(x));
                            assert(x != name@);
                        }
                        if old(self)@.remove(name@).contains(x) {
                            let k = choose|k: int| 0 <= k < before.len() && before[k]@ == x;
                            assert(k != i);
                            let k1 = if k < i { k } else { k - 1 };
                            assert(self.names@[k1] == before[k]);
                        }
                    }
                    assert(self@ =~= old(self)@.remove(name@));
                    assert(old(self)@.contains(name@));
                }
                true
            },
        }
    }

    pub fn is_empty(&self) -> (r: bool)
        ensures
            r == (self@ == Set::<Seq<char>>::empty()),
    {
        proof {
            if self.names@.len() > 0 {
                assert(self@.contains(self.names@[0]@));
            }
        }
        if self.names.len() == 0 {
            assert(self@ =~= Set::<Seq<char>>::empty());
            true
        } else {
            false
        }
    }

    pub fn len(&self) -> (r: usize)
        ensures
            r == self@.len(),
            self@.finite(),
    {
        proof {
            use_type_invariant(self);
            self.lemma_seq_view();
        }
        self.names.len()
    }

    /// The names, in insertion order.
    pub fn to_vec(&self) -> (r: Vec<String>)
        ensures
            strings_view(r@) == self.seq(),
    {
        let mut out: Vec<String> = Vec::new();
        let mut i: usize = 0;
        while i < self.names.len()
            invariant
                0 <= i <= self.names@.len(),
                strings_view(out@) == self.seq().subrange(0, i as int),
            decreases self.names@.len() - i,
        {
            let ghost prev = out@;
            let c = self.names[i].clone();
            out.push(c);
            assert(self.seq()[i as int] == self.names@[i as int]@);
            assert(strings_view(out@) =~= strings_view(prev).push(c@));
            assert(strings_view(out@) =~= self.seq().subrange(0, i + 1));
            i += 1;
        }
        assert(self.seq().subrange(0, self.names@.len() as int) =~= self.seq());
        out
    }

    /// A copy holding the same names.
    pub fn duplicate(&self) -> (r: Self)
        ensures
            r@ == self@,
            r.seq() == self.seq(),
    {
        proof {
            use_type_invariant(self);
        }
        let v = self.to_vec();
        proof {
            lemma_strings_view(v@);
            lemma_strings_view(self.names@);
            assert forall|i: int, j: int| 0 <= i < j < v@.len() implies v@[i]@ != v@[j]@ by {
                assert(strings_view(v@)[i] == v@[i]@);
                assert(strings_view(v@)[j] == v@[j]@);
                assert(self.names@[i]@ == self.seq()[i] && self.names@[j]@ == self.seq()[j]);
            }
        }
        let r = NameSet { names: v };
        assert(r.seq() =~= self.seq());
        proof {
            assert forall|x: Seq<char>| r@.contains(x) == self@.contains(x) by {
                if r@.contains(x) {
                    let k = choose|k: int| 0 <= k < r.names@.len() && r.names@[k]@ == x;
                    assert(r.seq()[k] == x);
                    assert(self.seq()[k] == self.names@[k]@);
                }
                if self@.contains(x) {
                    let k = choose|k: int| 0 <= k < self.names@.len() && self.names@[k]@ == x;
                    assert(self.seq()[k] == x);
                    assert(r.seq()[k] == r.names@[k]@);
                }
            }
            assert(r@ =~= self@);
        }
        r
    }

    /// Adds every name of `other`.
    pub fn extend(&mut self, other: &NameSet)
        ensures
            final(self)@ == old(self)@.union(other@),
    {
        let v = other.to_vec();
        proof {
            lemma_strings_view(v@);
            lemma_strings_view(other.names@);
        }
        let mut i: usize = 0;
        while i < v.len()
            invariant
                0 <= i <= v@.len(),
                strings_view(v@) == other.seq(),
                forall|x: Seq<char>| #[trigger] self@.contains(x) <==> (old(self)@.contains(x) || exists|k: int|
                    0 <= k < i && other.seq()[k] == x),
            decreases v@.len() - i,
        {
            let ghost prev = self@;
            self.insert(v[i].clone());
            proof {
                assert(v@[i as int]@ == other.seq()[i as int]);
                assert forall|x: Seq<char>| #[trigger] self@.contains(x) <==> (old(self)@.contains(x)
                    || exists|k: int| 0 <= k < i + 1 && other.seq()[k] == x) by {
                    if x == other.seq()[i as int] {
                        assert(0 <= i < i + 1 && other.seq()[i as int] == x);
                    }
                    if exists|k: int| 0 <= k < i + 1 && other.seq()[k] == x {
                        let k = choose|k: int| 0 <= k < i + 1 && other.seq()[k] == x;
                        if k < i {
                            assert(prev.contains(x));
                        }
                    }
                }
            }
            i += 1;
        }
        proof {
            assert forall|x: Seq<char>| self@.contains(x) == old(self)@.union(other@).contains(x) by {
                if exists|k: int| 0 <= k < v@.len() && other.seq()[k] == x {
                    let k = choose|k: int| 0 <= k < v@.len() && other.seq()[k] == x;
                    assert(other.seq()[k] == other.names@[k]@);
                    assert(other@.contains(x));
                }
                if other@.contains(x) {
                    let k = choose|k: int| 0 <= k < other.names@.len() && other.names@[k]@ == x;
                    assert(other.seq()[k] == x);
                }
            }
            assert(self@ =~= old(self)@.union(other@));
        }
    }

    /// The set of the names in `names`.
    pub fn from_names(names: &Vec<String>) -> (r: Self)
        ensures
            forall|x: Seq<char>| #[trigger] r@.contains(x) <==> exists|i: int|
                0 <= i < names@.len() && names@[i]@ == x,
    {
        let mut r = NameSet::new();
        let mut i: usize = 0;
        while i < names.len()
            invariant
                0 <= i <= names@.len(),
                forall|x: Seq<char>| #[trigger] r@.contains(x) <==> exists|k: int|
                    0 <= k < i && names@[k]@ == x,
            decreases names@.len() - i,
        {
            let ghost prev = r@;
            r.insert(names[i].clone());
            proof {
                assert forall|x: Seq<char>| #[trigger] r@.contains(x) <==> exists|k: int|
                    0 <= k < i + 1 && names@[k]@ == x by {
                    if x == names@[i as int]@ {
                        assert(0 <= i < i + 1 && names@[i as int]@ == x);
                    }
                    if exists|k: int| 0 <= k < i + 1 && names@[k]@ == x {
                        let k = choose|k: int| 0 <= k < i + 1 && names@[k]@ == x;
                        if k < i {
                            assert(prev.contains(x));
                        }
                    }
                }
            }
            i += 1;
        }
        r
    }
}

} // verus!
