//! Small set containers backed by vectors, used for every extractor's output.
//! A set's view is the mathematical `Set` of its elements' views; the
//! well-formedness predicate says the backing vector holds no duplicates, so
//! that `len` agrees with the view's cardinality.

use vstd::prelude::*;

verus! {

/// A set of strings, compared by character content.
#[derive(Debug)]
pub struct StringSet {
    items: Vec<String>,
}

impl StringSet {
    /// The views of the backing vector's elements, in insertion order.
    pub closed spec fn elems(&self) -> Seq<Seq<char>> {
        self.items@.map_values(|s: String| s@)
    }

    pub closed spec fn view(&self) -> Set<Seq<char>> {
        self.elems().to_set()
    }

    /// The backing vector holds each element once.
    pub closed spec fn wf(&self) -> bool {
        self.elems().no_duplicates()
    }

    pub fn new() -> (r: StringSet)
        ensures
            r.wf(),
            r@ == Set::<Seq<char>>::empty(),
    {
        let r = StringSet { items: Vec::new() };
        proof {
            assert(r.elems() =~= Seq::<Seq<char>>::empty());
            assert(r@ =~= Set::<Seq<char>>::empty());
        }
        r
    }

    pub fn contains(&self, s: &String) -> (r: bool)
        ensures
            r == self@.contains(s@),
    {
        let n = self.items.len();
        let mut i: usize = 0;
        while i < n
            invariant
                n == self.items@.len(),
                0 <= i <= n,
                forall|j: int| 0 <= j < i ==> self.elems()[j] != s@,
            decreases n - i,
        {
            if self.items[i].eq(s) {
                assert(self.elems()[i as int] == s@);
                assert(self.elems().contains(s@));
                return true;
            }
            i += 1;
        }
        assert(forall|j: int| 0 <= j < self.elems().len() ==> self.elems()[j] != s@);
        assert(!self.elems().contains(s@));
        false
    }

    pub fn insert(&mut self, s: String)
        requires
            old(self).wf(),
        ensures
            final(self).wf(),
            final(self)@ == old(self)@.insert(s@),
    {
        if !self.contains(&s) {
            let ghost pre = self.elems();
            self.items.push(s);
            proof {
                assert(self.elems() =~= pre.push(s@));
                assert(self.elems().drop_last() =~= pre);
                assert(self.elems().no_duplicates());
                assert(self@ =~= old(self)@.insert(s@)) by {
                    assert forall|t: Seq<char>| self@.contains(t)
                        implies old(self)@.insert(s@).contains(t) by {
                        let j = choose|j: int|
                            0 <= j < self.elems().len() && self.elems()[j] == t;
                        if j < pre.len() {
                            assert(pre[j] == t);
                        }
                    }
                    assert forall|t: Seq<char>| old(self)@.insert(s@).contains(t)
                        implies self@.contains(t) by {
                        if old(self)@.contains(t) {
                            let j = choose|j: int| 0 <= j < pre.len() && pre[j] == t;
                            assert(self.elems()[j] == t);
                        } else {
                            assert(self.elems().last() == s@);
                        }
                    }
                }
            }
        } else {
            proof {
                assert(self@ =~= old(self)@.insert(s@));
            }
        }
    }

    pub fn len(&self) -> (r: usize)
        requires
            self.wf(),
        ensures
            r == self@.len(),
    {
        proof {
            self.elems().unique_seq_to_set();
        }
        self.items.len()
    }

    /// The elements, in insertion order.
    pub fn elements(&self) -> (r: &Vec<String>)
        ensures
            r@.map_values(|s: String| s@) == self.elems(),
            r@.map_values(|s: String| s@).to_set() == self@,
    {
        &self.items
    }
}

/// A set of characters.
#[derive(Debug)]
pub struct CharSet {
    items: Vec<char>,
}

impl CharSet {
    /// The backing vector's contents, in insertion order.
    pub closed spec fn elems(&self) -> Seq<char> {
        self.items@
    }

    pub closed spec fn view(&self) -> Set<char> {
        self.items@.to_set()
    }

    /// The backing vector holds each character once.
    pub closed spec fn wf(&self) -> bool {
        self.items@.no_duplicates()
    }

    pub fn new() -> (r: CharSet)
        ensures
            r.wf(),
            r@ == Set::<char>::empty(),
    {
        let r = CharSet { items: Vec::new() };
        proof {
            assert(r@ =~= Set::<char>::empty());
        }
        r
    }

    pub fn contains(&self, c: char) -> (r: bool)
        ensures
            r == self@.contains(c),
    {
        let n = self.items.len();
        let mut i: usize = 0;
        while i < n
            invariant
                n == self.items@.len(),
                0 <= i <= n,
                forall|j: int| 0 <= j < i ==> self.items@[j] != c,
            decreases n - i,
        {
            if self.items[i] == c {
                assert(self.items@.contains(c));
                return true;
            }
            i += 1;
        }
        assert(!self.items@.contains(c));
        false
    }

    pub fn insert(&mut self, c: char)
        requires
            old(self).wf(),
        ensures
            final(self).wf(),
            final(self)@ == old(self)@.insert(c),
    {
        if !self.contains(c) {
            let ghost pre = self.items@;
            self.items.push(c);
            proof {
                assert(self.items@.drop_last() =~= pre);
                assert(self.items@.no_duplicates());
                assert(self@ =~= old(self)@.insert(c)) by {
                    assert forall|t: char| self@.contains(t)
                        implies old(self)@.insert(c).contains(t) by {
                        let j = choose|j: int|
                            0 <= j < self.items@.len() && self.items@[j] == t;
                        if j < pre.len() {
                            assert(pre[j] == t);
                        }
                    }
                    assert forall|t: char| old(self)@.insert(c).contains(t)
                        implies self@.contains(t) by {
                        if old(self)@.contains(t) {
                            let j = choose|j: int| 0 <= j < pre.len() && pre[j] == t;
                            assert(self.items@[j] == t);
                        } else {
                            assert(self.items@.last() == c);
                        }
                    }
                }
            }
        } else {
            proof {
                assert(self@ =~= old(self)@.insert(c));
            }
        }
    }

    pub fn len(&self) -> (r: usize)
        requires
            self.wf(),
        ensures
            r == self@.len(),
    {
        proof {
            self.items@.unique_seq_to_set();
        }
        self.items.len()
    }

    /// The characters, in insertion order.
    pub fn elements(&self) -> (r: &Vec<char>)
        ensures
            r@ == self.elems(),
            r@.to_set() == self@,
    {
        &self.items
    }
}

} // verus!
