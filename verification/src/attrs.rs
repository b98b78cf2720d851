use vstd::prelude::*;
use crate::json::{JsonValue, JsonView, string_eq};

verus! {

/// Whether the keys of an entry list are pairwise different.
pub open spec fn distinct_keys(s: Seq<(String, JsonValue)>) -> bool {
    forall|i: int, j: int| 0 <= i < j < s.len() ==> s[i].0@ != s[j].0@
}

/// Whether `k` is the key of some entry.
pub open spec fn has_key(s: Seq<(String, JsonValue)>, k: Seq<char>) -> bool {
    exists|i: int| 0 <= i < s.len() && s[i].0@ == k
}

/// The map that an entry list stands for.
pub open spec fn entries_map(s: Seq<(String, JsonValue)>) -> Map<Seq<char>, JsonView> {
    Map::new(
        |k: Seq<char>| has_key(s, k),
        |k: Seq<char>| s[choose|i: int| 0 <= i < s.len() && s[i].0@ == k].1@,
    )
}

/// In an entry list with distinct keys, the map holds each entry.
pub proof fn lemma_entries_map_at(s: Seq<(String, JsonValue)>, i: int)
    requires
        distinct_keys(s),
        0 <= i < s.len(),
    ensures
        entries_map(s).contains_key(s[i].0@),
        entries_map(s)[s[i].0@] == s[i].1@,
{
    assert(has_key(s, s[i].0@));
    let j = choose|j: int| 0 <= j < s.len() && s[j].0@ == s[i].0@;
    if j != i {
        if j < i {
            assert(s[j].0@ != s[i].0@);
        } else {
            assert(s[i].0@ != s[j].0@);
        }
    }
}

/// The attributes of an element: a map from attribute names to JSON values.
#[derive(Debug)]
pub struct Attributes {
    entries: Vec<(String, JsonValue)>,
}

impl View for Attributes {
    type V = Map<Seq<char>, JsonView>;

    closed spec fn view(&self) -> Map<Seq<char>, JsonView> {
        entries_map(self.entries@)
    }
}

impl Attributes {
    #[verifier::type_invariant]
    closed spec fn inv(self) -> bool {
        distinct_keys(self.entries@)
    }

    /// The number of attributes, as a sequence position bound for `entry_at`.
    pub closed spec fn spec_len(&self) -> nat {
        self.entries@.len()
    }

    /// The name of the `i`-th attribute.
    pub closed spec fn key_at(&self, i: int) -> Seq<char> {
        self.entries@[i].0@
    }

    /// The value of the `i`-th attribute.
    pub closed spec fn value_at(&self, i: int) -> JsonValue {
        self.entries@[i].1
    }

    /// The positions `0..spec_len()` list the map's entries, each once.
    pub fn positions(&self)
        ensures
            forall|i: int| 0 <= i < self.spec_len() ==> #[trigger] self@.contains_key(self.key_at(i))
                && self@[self.key_at(i)] == self.value_at(i)@,
            forall|k: Seq<char>| #[trigger] self@.contains_key(k) ==> exists|i: int|
                0 <= i < self.spec_len() && self.key_at(i) == k,
            forall|i: int, j: int| 0 <= i < j < self.spec_len() ==> self.key_at(i) != self.key_at(j),
    {
        proof {
            use_type_invariant(self);
            assert forall|i: int| 0 <= i < self.spec_len() implies #[trigger] self@.contains_key(self.key_at(i))
                && self@[self.key_at(i)] == self.value_at(i)@ by {
                lemma_entries_map_at(self.entries@, i);
            }
            assert forall|k: Seq<char>| #[trigger] self@.contains_key(k) implies exists|i: int|
                0 <= i < self.spec_len() && self.key_at(i) == k by {
                assert(has_key(self.entries@, k));
                let i = choose|i: int| 0 <= i < self.entries@.len() && self.entries@[i].0@ == k;
                assert(0 <= i < self.spec_len() && self.key_at(i) == k);
            }
        }
    }

    /// No attributes.
    pub fn new() -> (r: Attributes)
        ensures
            r@ == Map::<Seq<char>, JsonView>::empty(),
    {
        let r = Attributes { entries: Vec::new() };
        assert(r@ =~= Map::<Seq<char>, JsonView>::empty());
        r
    }

    /// The number of attributes.
    pub fn len(&self) -> (n: usize)
        ensures
            n == self.spec_len(),
    {
        self.entries.len()
    }

    /// The name and value of the `i`-th attribute.
    pub fn entry_at(&self, i: usize) -> (r: (&String, &JsonValue))
        requires
            i < self.spec_len(),
        ensures
            r.0@ == self.key_at(i as int),
            *r.1 == self.value_at(i as int),
    {
        let e = &self.entries[i];
        (&e.0, &e.1)
    }

    /// The position of the attribute named `key`, if there is one.
    fn position(&self, key: &str) -> (r: Option<usize>)
        ensures
            match r {
                Some(i) => i < self.entries@.len() && self.entries@[i as int].0@ == key@,
                None => !has_key(self.entries@, key@),
            },
    {
        let k = key.to_string();
        let n = self.entries.len();
        for i in 0..n
            invariant
                n == self.entries@.len(),
                k@ == key@,
                forall|j: int| 0 <= j < i ==> self.entries@[j].0@ != key@,
        {
            if string_eq(&self.entries[i].0, &k) {
                return Some(i);
            }
        }
        None
    }

    /// The value of the attribute named `key`.
    pub fn get(&self, key: &str) -> (r: Option<&JsonValue>)
        ensures
            match r {
                Some(v) => self@.contains_key(key@) && self@[key@] == v@,
                None => !self@.contains_key(key@),
            },
    {
        proof {
            use_type_invariant(self);
        }
        match self.position(key) {
            Some(i) => {
                proof {
                    lemma_entries_map_at(self.entries@, i as int);
                }
                Some(&self.entries[i].1)
            },
            None => None,
        }
    }

    /// Whether there is an attribute named `key`.
    pub fn contains_key(&self, key: &str) -> (r: bool)
        ensures
            r == self@.contains_key(key@),
    {
        self.get(key).is_some()
    }

    /// Sets the attribute `key` to `value`, replacing any value it had.
    pub fn insert(&mut self, key: String, value: JsonValue)
        ensures
            final(self)@ == old(self)@.insert(key@, value@),
    {
        proof {
            use_type_invariant(&*self);
        }
        let ghost old_entries = self.entries@;
        let pos = self.position(key.as_str());
        let ghost k = key@;
        let ghost v = value@;
        match pos {
            Some(i) => {
                let mut entries = Vec::new();
                std::mem::swap(&mut entries, &mut self.entries);
                entries.set(i, (key, value));
                assert(distinct_keys(entries@)) by {
                    assert forall|a: int, b: int| 0 <= a < b < entries@.len() implies
                        entries@[a].0@ != entries@[b].0@ by {
                        if a != i && b != i {
                            assert(old_entries[a].0@ != old_entries[b].0@);
                        } else if a == i {
                            assert(old_entries[a].0@ != old_entries[b].0@);
                        } else {
                            assert(old_entries[a].0@ != old_entries[b].0@);
                        }
                    }
                }
                self.entries = entries;
                assert(self@ =~= entries_map(old_entries).insert(k, v)) by {
                    assert forall|kk: Seq<char>| #[trigger] self@.contains_key(kk)
                        <==> entries_map(old_entries).insert(k, v).contains_key(kk) by {
                        if self@.contains_key(kk) {
                            let j = choose|j: int| 0 <= j < self.entries@.len() && self.entries@[j].0@ == kk;
                            if j != i {
                                assert(old_entries[j].0@ == kk);
                                assert(has_key(old_entries, kk));
                            }
                        }
                        if entries_map(old_entries).insert(k, v).contains_key(kk) && kk != k {
                            let j = choose|j: int| 0 <= j < old_entries.len() && old_entries[j].0@ == kk;
                            assert(self.entries@[j].0@ == kk);
                        }
                        if kk == k {
                            assert(self.entries@[i as int].0@ == kk);
                        }
                    }
                    assert forall|kk: Seq<char>| #[trigger] self@.contains_key(kk) implies
                        self@[kk] == entries_map(old_entries).insert(k, v)[kk] by {
                        let j = choose|j: int| 0 <= j < self.entries@.len() && self.entries@[j].0@ == kk;
                        lemma_entries_map_at(self.entries@, j);
                        if j != i as int {
                            lemma_entries_map_at(old_entries, j);
                        }
                    }
                }
            },
            None => {
                let mut entries = Vec::new();
                std::mem::swap(&mut entries, &mut self.entries);
                entries.push((key, value));
                let ghost n = old_entries.len() as int;
                assert(distinct_keys(entries@)) by {
                    assert forall|a: int, b: int| 0 <= a < b < entries@.len() implies
                        entries@[a].0@ != entries@[b].0@ by {
                        if b == n {
                            assert(old_entries[a].0@ != k);
                        } else {
                            assert(old_entries[a].0@ != old_entries[b].0@);
                        }
                    }
                }
                self.entries = entries;
                assert(self@ =~= entries_map(old_entries).insert(k, v)) by {
                    assert forall|kk: Seq<char>| #[trigger] self@.contains_key(kk)
                        <==> entries_map(old_entries).insert(k, v).contains_key(kk) by {
                        if self@.contains_key(kk) {
                            let j = choose|j: int| 0 <= j < self.entries@.len() && self.entries@[j].0@ == kk;
                            if j != n {
                                assert(old_entries[j].0@ == kk);
                                assert(has_key(old_entries, kk));
                            }
                        }
                        if entries_map(old_entries).insert(k, v).contains_key(kk) && kk != k {
                            let j = choose|j: int| 0 <= j < old_entries.len() && old_entries[j].0@ == kk;
                            assert(self.entries@[j].0@ == kk);
                        }
                        if kk == k {
                            assert(self.entries@[n].0@ == kk);
                        }
                    }
                    assert forall|kk: Seq<char>| #[trigger] self@.contains_key(kk) implies
                        self@[kk] == entries_map(old_entries).insert(k, v)[kk] by {
                        let j = choose|j: int| 0 <= j < self.entries@.len() && self.entries@[j].0@ == kk;
                        lemma_entries_map_at(self.entries@, j);
                        if j != n {
                            lemma_entries_map_at(old_entries, j);
                        }
                    }
                }
            },
        }
    }

    /// Whether the `i`-th attribute of `self` has the same value in `other`.
    fn entry_agrees(&self, other: &Attributes, i: usize) -> (r: bool)
        requires
            i < self.spec_len(),
        ensures
            r == (other@.contains_key(self.key_at(i as int)) && other@[self.key_at(i as int)]
                == self@[self.key_at(i as int)]),
    {
        self.positions();
        let (k, v) = self.entry_at(i);
        assert(self@.contains_key(self.key_at(i as int)));
        assert(self@[self.key_at(i as int)] == v@);
        match other.get(k.as_str()) {
            Some(w) => {
                assert(other@[self.key_at(i as int)] == w@);
                v.same_as(w)
            },
            None => false,
        }
    }

    /// Whether both hold the same attributes with the same values.
    pub fn same_as(&self, other: &Attributes) -> (r: bool)
        ensures
            r == (self@ == other@),
    {
        self.positions();
        other.positions();
        let n = self.entries.len();
        for i in 0..n
            invariant
                n == self.spec_len(),
                forall|j: int| 0 <= j < i ==> #[trigger] other@.contains_key(self.key_at(j))
                    && other@[self.key_at(j)] == self@[self.key_at(j)],
                forall|ii: int| 0 <= ii < self.spec_len() ==> #[trigger] self@.contains_key(self.key_at(ii)),
        {
            if !self.entry_agrees(other, i) {
                assert(self@.contains_key(self.key_at(i as int)));
                return false;
            }
        }
        let m = other.entries.len();
        for i in 0..m
            invariant
                m == other.spec_len(),
                forall|j: int| 0 <= j < i ==> #[trigger] self@.contains_key(other.key_at(j)),
                forall|ii: int| 0 <= ii < other.spec_len() ==> #[trigger] other@.contains_key(other.key_at(ii)),
        {
            let (k, _) = other.entry_at(i);
            if !self.contains_key(k.as_str()) {
                assert(other@.contains_key(other.key_at(i as int)));
                return false;
            }
        }
        assert(self@ =~= other@) by {
            assert forall|kk: Seq<char>| self@.contains_key(kk) implies #[trigger] other@.contains_key(kk)
                && other@[kk] == self@[kk] by {
                let j = choose|j: int| 0 <= j < self.spec_len() && self.key_at(j) == kk;
                assert(other@.contains_key(self.key_at(j)));
            }
            assert forall|kk: Seq<char>| other@.contains_key(kk) implies #[trigger] self@.contains_key(kk) by {
                let j = choose|j: int| 0 <= j < other.spec_len() && other.key_at(j) == kk;
                assert(self@.contains_key(other.key_at(j)));
            }
        }
        true
    }
}

impl Attributes {
    /// A copy of these attributes.
    pub fn duplicate(&self) -> (r: Attributes)
        ensures
            r@ == self@,
    {
        proof {
            use_type_invariant(self);
        }
        let mut entries: Vec<(String, JsonValue)> = Vec::new();
        let n = self.entries.len();
        for i in 0..n
            invariant
                n == self.entries@.len(),
                entries@.len() == i,
                forall|j: int| 0 <= j < i ==> #[trigger] entries@[j] == self.entries@[j],
        {
            let e = &self.entries[i];
            entries.push((e.0.clone(), e.1.duplicate()));
        }
        assert(entries@ =~= self.entries@);
        Attributes { entries }
    }
}

impl PartialEq for Attributes {
    fn eq(&self, other: &Self) -> (r: bool) {
        self.same_as(other)
    }
}

impl Eq for Attributes {}

impl vstd::std_specs::cmp::PartialEqSpecImpl for Attributes {
    open spec fn obeys_eq_spec() -> bool {
        true
    }

    open spec fn eq_spec(&self, other: &Attributes) -> bool {
        self@ == other@
    }
}

} // verus!
