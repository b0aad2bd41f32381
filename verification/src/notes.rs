//! The set of clean tab names that currently have a note.
use vstd::prelude::*;

verus! {

/// A set of note names, compared by their text.
#[derive(Debug)]
pub struct NoteSet {
    names: Vec<String>,
}

/// The texts of a sequence of strings.
pub open spec fn texts(v: Seq<String>) -> Seq<Seq<char>> {
    v.map_values(|s: String| s@)
}

impl View for NoteSet {
    type V = Set<Seq<char>>;

    closed spec fn view(&self) -> Set<Seq<char>> {
        texts(self.names@).to_set()
    }
}

proof fn lemma_texts_push(v: Seq<String>, s: String)
    ensures
        texts(v.push(s)) == texts(v).push(s@),
{
    assert(texts(v.push(s)) =~= texts(v).push(s@));
}

proof fn lemma_remove_unique(t: Seq<Seq<char>>, i: int)
    requires
        t.no_duplicates(),
        0 <= i < t.len(),
    ensures
        t.remove(i).no_duplicates(),
        t.remove(i).to_set() == t.to_set().remove(t[i]),
{
    let r = t.remove(i);
    assert forall|a: int, b: int| 0 <= a < b < r.len() implies r[a] != r[b] by {
        let a0 = if a < i { a } else { a + 1 };
        let b0 = if b < i { b } else { b + 1 };
        assert(r[a] == t[a0] && r[b] == t[b0]);
    }
    assert forall|x: Seq<char>| r.to_set().contains(x) <==> t.to_set().remove(t[i]).contains(x) by {
        if r.to_set().contains(x) {
            let k = choose|k: int| 0 <= k < r.len() && r[k] == x;
            let k0 = if k < i { k } else { k + 1 };
            assert(t[k0] == x);
        }
        if t.to_set().remove(t[i]).contains(x) {
            let k = choose|k: int| 0 <= k < t.len() && t[k] == x;
            assert(k != i);
            let k1 = if k < i { k } else { k - 1 };
            assert(r[k1] == x);
        }
    }
    assert(r.to_set() =~= t.to_set().remove(t[i]));
}

impl NoteSet {
    #[verifier::type_invariant]
    closed spec fn unique(&self) -> bool {
        texts(self.names@).no_duplicates()
    }

    /// The empty set.
    pub fn new() -> (s: Self)
        ensures
            s@ == Set::<Seq<char>>::empty(),
    {
        let s = NoteSet { names: Vec::new() };
        assert(texts(s.names@).to_set() =~= Set::<Seq<char>>::empty());
        s
    }

    /// The number of names in the set.
    pub fn len(&self) -> (n: usize)
        ensures
            n == self@.len(),
            self@.finite(),
    {
        proof {
            use_type_invariant(self);
            texts(self.names@).unique_seq_to_set();
            texts(self.names@).lemma_cardinality_of_set();
        }
        self.names.len()
    }

    /// Whether the set is empty.
    pub fn is_empty(&self) -> (b: bool)
        ensures
            b == (self@ == Set::<Seq<char>>::empty()),
    {
        proof {
            use_type_invariant(self);
            texts(self.names@).lemma_cardinality_of_empty_set_is_0();
            texts(self.names@).lemma_cardinality_of_set();
            if self@.len() == 0 {
                Set::<Seq<char>>::lemma_len0_is_empty(self@);
            }
        }
        self.names.len() == 0
    }

    /// Where `name` sits among the stored names, if it is there.
    fn position(&self, name: &String) -> (r: Option<usize>)
        ensures
            match r {
                Some(i) => i < self.names@.len() && self.names@[i as int]@ == name@,
                None => !self@.contains(name@),
            },
    {
        let mut i: usize = 0;
        while i < self.names.len()
            invariant
                i <= self.names@.len(),
                forall|j: int| 0 <= j < i ==> self.names@[j]@ != name@,
            decreases self.names.len() - i,
        {
            if self.names[i] == *name {
                return Some(i);
            }
            i = i + 1;
        }
        proof {
            if self@.contains(name@) {
                let k = choose|k: int| 0 <= k < texts(self.names@).len() && texts(self.names@)[k]
                    == name@;
                assert(self.names@[k]@ == name@);
            }
        }
        None
    }

    /// Whether `name` is in the set.
    pub fn contains(&self, name: &str) -> (b: bool)
        ensures
            b == self@.contains(name@),
    {
        let owned = name.to_owned();
        match self.position(&owned) {
            Some(i) => {
                assert(texts(self.names@)[i as int] == name@);
                true
            },
            None => false,
        }
    }

    /// Adds `name`; tells whether it was not there before.
    pub fn insert(&mut self, name: String) -> (added: bool)
        ensures
            final(self)@ == old(self)@.insert(name@),
            added == !old(self)@.contains(name@),
    {
        proof {
            use_type_invariant(&*self);
        }
        match self.position(&name) {
            Some(i) => {
                assert(texts(self.names@)[i as int] == name@);
                assert(self@.insert(name@) =~= self@);
                false
            },
            None => {
                let ghost old_names = self.names@;
                let ghost t = name@;
                let mut names: Vec<String> = Vec::new();
                std::mem::swap(&mut names, &mut self.names);
                names.push(name);
                proof {
                    lemma_texts_push(old_names, names@.last());
                    assert(names@ == old_names.push(names@.last()));
                    let nt = texts(names@);
                    assert(nt == texts(old_names).push(t));
                    assert forall|a: int, b: int| 0 <= a < b < nt.len() implies nt[a] != nt[b] by {
                        if b == nt.len() - 1 {
                            assert(texts(old_names)[a] == nt[a]);
                            assert(texts(old_names).to_set().contains(nt[a]));
                        } else {
                            assert(texts(old_names)[a] == nt[a] && texts(old_names)[b] == nt[b]);
                        }
                    }
                    texts(old_names).lemma_push_to_set_commute(t);
                }
                self.names = names;
                true
            },
        }
    }

    /// Takes `name` out; tells whether it was there.
    pub fn remove(&mut self, name: &str) -> (removed: bool)
        ensures
            final(self)@ == old(self)@.remove(name@),
            removed == old(self)@.contains(name@),
    {
        proof {
            use_type_invariant(&*self);
        }
        let owned = name.to_owned();
        match self.position(&owned) {
            Some(i) => {
                let ghost old_names = self.names@;
                proof {
                    assert(texts(old_names)[i as int] == name@);
                    lemma_remove_unique(texts(old_names), i as int);
                }
                let mut names: Vec<String> = Vec::new();
                std::mem::swap(&mut names, &mut self.names);
                names.remove(i);
                proof {
                    assert(texts(names@) =~= texts(old_names).remove(i as int));
                }
                self.names = names;
                true
            },
            None => {
                assert(self@.remove(name@) =~= self@);
                false
            },
        }
    }
}

impl PartialEq for NoteSet {
    fn eq(&self, other: &Self) -> (same: bool) {
        proof {
            use_type_invariant(self);
            use_type_invariant(other);
            texts(self.names@).unique_seq_to_set();
            texts(other.names@).unique_seq_to_set();
            texts(self.names@).lemma_cardinality_of_set();
            texts(other.names@).lemma_cardinality_of_set();
        }
        if self.names.len() != other.names.len() {
            return false;
        }
        let mut i: usize = 0;
        while i < self.names.len()
            invariant
                i <= self.names@.len(),
                self.names@.len() == other.names@.len(),
                forall|j: int| 0 <= j < i ==> other@.contains(#[trigger] self.names@[j]@),
            decreases self.names.len() - i,
        {
            match other.position(&self.names[i]) {
                Some(k) => {
                    assert(texts(other.names@)[k as int] == self.names@[i as int]@);
                },
                None => {
                    assert(texts(self.names@)[i as int] == self.names@[i as int]@);
                    return false;
                },
            }
            i = i + 1;
        }
        proof {
            assert(self@.subset_of(other@)) by {
                assert forall|x: Seq<char>| self@.contains(x) implies other@.contains(x) by {
                    let k = choose|k: int| 0 <= k < texts(self.names@).len() && texts(self.names@)[k]
                        == x;
                    assert(self.names@[k]@ == x);
                }
            }
            if !(self@ =~= other@) {
                let w = choose|x: Seq<char>| !(self@.contains(x) <==> other@.contains(x));
                self@.lemma_subset_not_in_lt(other@, w);
            }
        }
        true
    }
}

impl vstd::std_specs::cmp::PartialEqSpecImpl for NoteSet {
    open spec fn obeys_eq_spec() -> bool {
        true
    }

    open spec fn eq_spec(&self, other: &Self) -> bool {
        self@ == other@
    }
}

} // verus!
