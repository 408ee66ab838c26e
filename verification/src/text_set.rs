//! A set of texts kept as a list of strings without repeats.

use crate::text::text_eq;
use vstd::prelude::*;

verus! {

/// The character sequences of a list of strings.
pub open spec fn texts(items: Seq<String>) -> Seq<Seq<char>> {
    items.map_values(|s: String| s@)
}

/// A set of texts; each text is held once.
#[derive(Debug)]
pub struct TextSet {
    items: Vec<String>,
}

impl View for TextSet {
    type V = Set<Seq<char>>;

    closed spec fn view(&self) -> Set<Seq<char>> {
        texts(self.items@).to_set()
    }
}

impl TextSet {
    #[verifier::type_invariant]
    closed spec fn wf(self) -> bool {
        texts(self.items@).no_duplicates()
    }

    /// The empty set.
    pub fn new() -> (r: TextSet)
        ensures
            r@ == Set::<Seq<char>>::empty(),
    {
        let r = TextSet { items: Vec::new() };
        assert(r@ =~= Set::<Seq<char>>::empty());
        r
    }

    /// The position of `text` in the list, if it is there.
    fn position(&self, text: &str) -> (r: Option<usize>)
        ensures
            match r {
                Some(i) => i < self.items@.len() && self.items@[i as int]@ == text@,
                None => !self@.contains(text@),
            },
    {
        let n = self.items.len();
        let mut i: usize = 0;
        while i < n
            invariant
                n == self.items@.len(),
                i <= n,
                forall|j: int| 0 <= j < i ==> self.items@[j]@ != text@,
            decreases n - i,
        {
            if text_eq(self.items[i].as_str(), text) {
                return Some(i);
            }
            i = i + 1;
        }
        assert(!texts(self.items@).contains(text@));
        None
    }

    /// Is `text` in the set?
    pub fn contains(&self, text: &str) -> (r: bool)
        ensures
            r == self@.contains(text@),
    {
        match self.position(text) {
            Some(i) => {
                assert(texts(self.items@)[i as int] == text@);
                true
            },
            None => false,
        }
    }

    /// Adds `text` to the set.
    pub fn insert(&mut self, text: &str)
        ensures
            final(self)@ == old(self)@.insert(text@),
    {
        proof {
            use_type_invariant(&*self);
        }
        match self.position(text) {
            Some(i) => {
                assert(texts(self.items@)[i as int] == text@);
                assert(self@ =~= self@.insert(text@));
            },
            None => {
                let ghost before = texts(self.items@);
                let mut items = Vec::new();
                std::mem::swap(&mut items, &mut self.items);
                items.push(String::from_str(text));
                assert(texts(items@) =~= before.push(text@));
                assert forall|t: Seq<char>| texts(items@).to_set().contains(t) <==> before.to_set().insert(text@).contains(t) by {
                    if texts(items@).contains(t) {
                        let k = choose|k: int| 0 <= k < texts(items@).len() && texts(items@)[k] == t;
                        if k < before.len() {
                            assert(before[k] == t);
                        }
                    }
                    if before.contains(t) {
                        let k = choose|k: int| 0 <= k < before.len() && before[k] == t;
                        assert(texts(items@)[k] == t);
                    }
                    if t == text@ {
                        assert(texts(items@)[before.len() as int] == t);
                    }
                }
                assert(texts(items@).to_set() =~= before.to_set().insert(text@));
                self.items = items;
            },
        }
    }

    /// Removes `text` from the set.
    pub fn remove(&mut self, text: &str)
        ensures
            final(self)@ == old(self)@.remove(text@),
    {
        proof {
            use_type_invariant(&*self);
        }
        match self.position(text) {
            Some(i) => {
                let ghost before = texts(self.items@);
                let ghost n = before.len();
                let mut items = Vec::new();
                std::mem::swap(&mut items, &mut self.items);
                items.remove(i);
                let ghost after = texts(items@);
                assert(after =~= before.subrange(0, i as int) + before.subrange(i + 1, n as int));
                assert forall|t: Seq<char>| after.to_set().contains(t) <==> before.to_set().remove(text@).contains(t) by {
                    if after.contains(t) {
                        let k = choose|k: int| 0 <= k < after.len() && after[k] == t;
                        assert(before[i as int] == text@);
                        if k < i {
                            assert(before[k] == t);
                            assert(before[k] != before[i as int]);
                        } else {
                            assert(before[k + 1] == t);
                            assert(before[k + 1] != before[i as int]);
                        }
                    }
                    if before.contains(t) && t != text@ {
                        let k = choose|k: int| 0 <= k < before.len() && before[k] == t;
                        if k < i {
                            assert(after[k] == t);
                        } else {
                            assert(after[k - 1] == t);
                        }
                    }
                }
                assert(after.to_set() =~= before.to_set().remove(text@));
                self.items = items;
            },
            None => {
                assert(self@ =~= self@.remove(text@));
            },
        }
    }

    /// The texts of the set, each once.
    pub fn items(&self) -> (r: &Vec<String>)
        ensures
            texts(r@).to_set() == self@,
            texts(r@).no_duplicates(),
    {
        proof {
            use_type_invariant(self);
        }
        &self.items
    }

    /// Is the set empty?
    pub fn is_empty(&self) -> (r: bool)
        ensures
            r == (self@ == Set::<Seq<char>>::empty()),
    {
        if self.items.len() == 0 {
            assert(self@ =~= Set::<Seq<char>>::empty());
            true
        } else {
            assert(self@.contains(texts(self.items@)[0]));
            false
        }
    }
}

impl Clone for TextSet {
    fn clone(&self) -> (r: Self)
        ensures
            r@ == self@,
    {
        proof {
            use_type_invariant(self);
        }
        let items = self.items.clone();
        assert(items@ =~= self.items@);
        TextSet { items }
    }
}

} // verus!
