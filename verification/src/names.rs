use vstd::prelude::*;
use crate::json::string_eq;

verus! {

/// Whether the strings of a list are pairwise different.
pub open spec fn distinct_names(s: Seq<String>) -> bool {
    forall|i: int, j: int| 0 <= i < j < s.len() ==> s[i]@ != s[j]@
}

/// The set of texts that a list of strings holds.
pub open spec fn names_set(s: Seq<String>) -> Set<Seq<char>> {
    Set::new(|k: Seq<char>| exists|i: int| 0 <= i < s.len() && s[i]@ == k)
}

/// A set of attribute names.
#[derive(Debug)]
pub struct AttributeNames {
    names: Vec<String>,
}

impl View for AttributeNames {
    type V = Set<Seq<char>>;

    closed spec fn view(&self) -> Set<Seq<char>> {
        names_set(self.names@)
    }
}

impl AttributeNames {
    #[verifier::type_invariant]
    closed spec fn inv(self) -> bool {
        distinct_names(self.names@)
    }

    /// The number of names, as a bound for `name_at`.
    pub closed spec fn spec_len(&self) -> nat {
        self.names@.len()
    }

    /// The `i`-th name.
    pub closed spec fn name_at(&self, i: int) -> Seq<char> {
        self.names@[i]@
    }

    /// The positions `0..spec_len()` list the set's members, each once.
    pub fn positions(&self)
        ensures
            forall|i: int| 0 <= i < self.spec_len() ==> #[trigger] self@.contains(self.name_at(i)),
            forall|k: Seq<char>| #[trigger] self@.contains(k) ==> exists|i: int|
                0 <= i < self.spec_len() && self.name_at(i) == k,
            forall|i: int, j: int| 0 <= i < j < self.spec_len() ==> self.name_at(i) != self.name_at(j),
    {
        proof {
            use_type_invariant(self);
            assert forall|i: int| 0 <= i < self.spec_len() implies #[trigger] self@.contains(self.name_at(i)) by {
                assert(self.names@[i]@ == self.name_at(i));
            }
            assert forall|k: Seq<char>| #[trigger] self@.contains(k) implies exists|i: int|
                0 <= i < self.spec_len() && self.name_at(i) == k by {
                let i = choose|i: int| 0 <= i < self.names@.len() && self.names@[i]@ == k;
                assert(0 <= i < self.spec_len() && self.name_at(i) == k);
            }
        }
    }

    /// No names.
    pub fn new() -> (r: AttributeNames)
        ensures
            r@ == Set::<Seq<char>>::empty(),
    {
        let r = AttributeNames { names: Vec::new() };
        assert(r@ =~= Set::<Seq<char>>::empty());
        r
    }

    /// The number of names.
    pub fn len(&self) -> (n: usize)
        ensures
            n == self.spec_len(),
    {
        self.names.len()
    }

    /// Whether there are no names.
    pub fn is_empty(&self) -> (r: bool)
        ensures
            r == (self@ == Set::<Seq<char>>::empty()),
    {
        self.positions();
        if self.names.len() == 0 {
            assert(self@ =~= Set::<Seq<char>>::empty());
            true
        } else {
            assert(self@.contains(self.name_at(0)));
            false
        }
    }

    /// The `i`-th name.
    pub fn name_at_pos(&self, i: usize) -> (r: &String)
        requires
            i < self.spec_len(),
        ensures
            r@ == self.name_at(i as int),
    {
        &self.names[i]
    }

    /// Whether `name` is a member.
    pub fn contains(&self, name: &str) -> (r: bool)
        ensures
            r == self@.contains(name@),
    {
        let k = name.to_string();
        let n = self.names.len();
        for i in 0..n
            invariant
                n == self.names@.len(),
                k@ == name@,
                forall|j: int| 0 <= j < i ==> self.names@[j]@ != name@,
        {
            if string_eq(&self.names[i], &k) {
                assert(self.names@[i as int]@ == name@);
                return true;
            }
        }
        false
    }

    /// Adds `name` to the set.
    pub fn insert(&mut self, name: String)
        ensures
            final(self)@ == old(self)@.insert(name@),
    {
        proof {
            use_type_invariant(&*self);
        }
        if !self.contains(name.as_str()) {
            let ghost old_names = self.names@;
            let mut names = Vec::new();
            std::mem::swap(&mut names, &mut self.names);
            names.push(name);
            assert(distinct_names(names@)) by {
                assert forall|a: int, b: int| 0 <= a < b < names@.len() implies names@[a]@ != names@[b]@ by {
                    if b == old_names.len() {
                        assert(!names_set(old_names).contains(names@[b]@));
                        if names@[a]@ == names@[b]@ {
                            assert(old_names[a]@ == names@[b]@);
                        }
                    } else {
                        assert(old_names[a]@ != old_names[b]@);
                    }
                }
            }
            self.names = names;
            assert(self@ =~= names_set(old_names).insert(name@)) by {
                assert forall|k: Seq<char>| #[trigger] self@.contains(k) implies names_set(old_names).insert(name@).contains(k) by {
                    let i = choose|i: int| 0 <= i < self.names@.len() && self.names@[i]@ == k;
                    if i < old_names.len() {
                        assert(old_names[i]@ == k);
                    }
                }
                assert forall|k: Seq<char>| names_set(old_names).insert(name@).contains(k) implies #[trigger] self@.contains(k) by {
                    if k == name@ {
                        assert(self.names@[old_names.len() as int]@ == k);
                    } else {
                        let i = choose|i: int| 0 <= i < old_names.len() && old_names[i]@ == k;
                        assert(self.names@[i]@ == k);
                    }
                }
            }
        } else {
            assert(old(self)@.insert(name@) =~= old(self)@);
        }
    }

    /// Whether both hold the same names.
    pub fn same_as(&self, other: &AttributeNames) -> (r: bool)
        ensures
            r == (self@ == other@),
    {
        self.positions();
        other.positions();
        let n = self.names.len();
        for i in 0..n
            invariant
                n == self.spec_len(),
                forall|j: int| 0 <= j < i ==> #[trigger] other@.contains(self.name_at(j)),
                forall|ii: int| 0 <= ii < self.spec_len() ==> #[trigger] self@.contains(self.name_at(ii)),
        {
            if !other.contains(self.names[i].as_str()) {
                assert(self@.contains(self.name_at(i as int)));
                return false;
            }
        }
        let m = other.names.len();
        for i in 0..m
            invariant
                m == other.spec_len(),
                forall|j: int| 0 <= j < i ==> #[trigger] self@.contains(other.name_at(j)),
                forall|ii: int| 0 <= ii < other.spec_len() ==> #[trigger] other@.contains(other.name_at(ii)),
        {
            if !self.contains(other.names[i].as_str()) {
                assert(other@.contains(other.name_at(i as int)));
                return false;
            }
        }
        assert(self@ =~= other@) by {
            assert forall|k: Seq<char>| self@.contains(k) implies #[trigger] other@.contains(k) by {
                let j = choose|j: int| 0 <= j < self.spec_len() && self.name_at(j) == k;
                assert(other@.contains(self.name_at(j)));
            }
            assert forall|k: Seq<char>| other@.contains(k) implies #[trigger] self@.contains(k) by {
                let j = choose|j: int| 0 <= j < other.spec_len() && other.name_at(j) == k;
                assert(self@.contains(other.name_at(j)));
            }
        }
        true
    }
}

impl PartialEq for AttributeNames {
    fn eq(&self, other: &Self) -> (r: bool) {
        self.same_as(other)
    }
}

impl Eq for AttributeNames {}

impl vstd::std_specs::cmp::PartialEqSpecImpl for AttributeNames {
    open spec fn obeys_eq_spec() -> bool {
        true
    }

    open spec fn eq_spec(&self, other: &AttributeNames) -> bool {
        self@ == other@
    }
}

} // verus!
