//! A set of names, held as a vector without repetitions.
use vstd::prelude::*;

verus! {

/// A finite set of names. The order of the names is the order in which they were added.
pub struct NameSet {
    items: Vec<String>,
}

impl View for NameSet {
    type V = Set<Seq<char>>;

    open spec fn view(&self) -> Set<Seq<char>> {
        Set::new(|x: Seq<char>| self.seq_view().contains(x))
    }
}

impl NameSet {
    /// The names, in order.
    pub closed spec fn seq_view(&self) -> Seq<Seq<char>> {
        self.items@.map_values(|s: String| s@)
    }

    /// Well-formedness: no name occurs twice.
    pub open spec fn wf(&self) -> bool {
        self.seq_view().no_duplicates()
    }

    pub fn new() -> (r: Self)
        ensures
            r.wf(),
            r@ == Set::<Seq<char>>::empty(),
            r.seq_view() == Seq::<Seq<char>>::empty(),
    {
        let r = NameSet { items: Vec::new() };
        assert(r.seq_view() =~= Seq::<Seq<char>>::empty());
        assert(r@ =~= Set::<Seq<char>>::empty());
        r
    }

    pub fn len(&self) -> (r: usize)
        ensures
            r == self.seq_view().len(),
    {
        self.items.len()
    }

    pub fn item(&self, i: usize) -> (r: &String)
        requires
            i < self.seq_view().len(),
        ensures
            r@ == self.seq_view()[i as int],
    {
        &self.items[i]
    }

    pub fn is_empty(&self) -> (r: bool)
        ensures
            r == (self@ == Set::<Seq<char>>::empty()),
            r == (self.seq_view().len() == 0),
    {
        if self.items.len() == 0 {
            assert(self@ =~= Set::<Seq<char>>::empty());
            true
        } else {
            assert(self@.contains(self.seq_view()[0]));
            false
        }
    }

    /// The position of `name`, if it is in the set.
    fn position(&self, name: &str) -> (r: Option<usize>)
        ensures
            r matches Some(i) ==> i < self.seq_view().len() && self.seq_view()[i as int] == name@,
            r is None ==> !self@.contains(name@),
    {
        let k = String::from_str(name);
        let n = self.items.len();
        for i in 0..n
            invariant
                n == self.seq_view().len(),
                k@ == name@,
                forall|j: int| 0 <= j < i ==> #[trigger] self.seq_view()[j] != name@,
        {
            if self.items[i] == k {
                return Some(i);
            }
        }
        None
    }

    pub fn contains(&self, name: &str) -> (r: bool)
        ensures
            r == self@.contains(name@),
    {
        match self.position(name) {
            Some(_) => true,
            None => false,
        }
    }

    /// Adds `name`; returns whether it was new.
    pub fn insert(&mut self, name: String) -> (r: bool)
        requires
            old(self).wf(),
        ensures
            final(self).wf(),
            final(self)@ == old(self)@.insert(name@),
            r == !old(self)@.contains(name@),
            final(self).seq_view() == (if r {
                old(self).seq_view().push(name@)
            } else {
                old(self).seq_view()
            }),
    {
        if self.contains(name.as_str()) {
            assert(self@ =~= old(self)@.insert(name@));
            false
        } else {
            let ghost s0 = self.seq_view();
            self.items.push(name);
            assert(self.seq_view() =~= s0.push(name@));
            assert forall|x: Seq<char>| #[trigger] self@.contains(x) <==> old(self)@.insert(
                name@,
            ).contains(x) by {
                if s0.contains(x) {
                    let j = choose|j: int| 0 <= j < s0.len() && s0[j] == x;
                    assert(self.seq_view()[j] == x);
                }
                if x == name@ {
                    assert(self.seq_view()[s0.len() as int] == x);
                }
                if self.seq_view().contains(x) && x != name@ {
                    let j = choose|j: int|
                        0 <= j < self.seq_view().len() && self.seq_view()[j] == x;
                    assert(j < s0.len());
                    assert(s0[j] == x);
                }
            }
            assert(self@ =~= old(self)@.insert(name@));
            true
        }
    }

    /// Removes `name`; returns whether it was there.
    pub fn remove(&mut self, name: &str) -> (r: bool)
        requires
            old(self).wf(),
        ensures
            final(self).wf(),
            final(self)@ == old(self)@.remove(name@),
            r == old(self)@.contains(name@),
    {
        match self.position(name) {
            Some(i) => {
                let ghost s0 = self.seq_view();
                self.items.remove(i);
                assert(self.seq_view() =~= s0.remove(i as int));
                assert forall|x: Seq<char>| #[trigger] self@.contains(x) <==> old(self)@.remove(
                    name@,
                ).contains(x) by {
                    if self.seq_view().contains(x) {
                        let j = choose|j: int|
                            0 <= j < self.seq_view().len() && self.seq_view()[j] == x;
                        if j < i {
                            assert(s0[j] == x);
                        } else {
                            assert(s0[j + 1] == x);
                        }
                    }
                    if old(self)@.remove(name@).contains(x) {
                        let j = choose|j: int| 0 <= j < s0.len() && s0[j] == x;
                        assert(j != i);
                        if j < i {
                            assert(self.seq_view()[j] == x);
                        } else {
                            assert(self.seq_view()[j - 1] == x);
                        }
                    }
                }
                assert(self@ =~= old(self)@.remove(name@));
                true
            },
            None => {
                assert(self@ =~= old(self)@.remove(name@));
                false
            },
        }
    }

    /// The names, in order.
    pub fn to_vec(&self) -> (r: Vec<String>)
        ensures
            r@.map_values(|s: String| s@) == self.seq_view(),
    {
        let c = self.copy();
        c.items
    }

    /// A copy with the same names in the same order.
    pub fn copy(&self) -> (r: Self)
        ensures
            r.seq_view() == self.seq_view(),
            r@ == self@,
    {
        let mut items: Vec<String> = Vec::new();
        let n = self.items.len();
        for i in 0..n
            invariant
                n == self.items@.len(),
                items@.len() == i,
                forall|j: int| 0 <= j < i ==> #[trigger] items@[j]@ == self.items@[j]@,
        {
            items.push(self.items[i].clone());
        }
        let r = NameSet { items };
        assert(r.seq_view() =~= self.seq_view());
        r
    }
}

} // verus!
