use vstd::prelude::*;

verus! {

/// The four orthogonal neighbors of a cell, in the fixed order
/// up (+y), down (-y), left (-x), right (+x).
pub struct Adjacency<T>([T; 4]);

impl<T> Adjacency<T> {
    /// All four entries, in order.
    pub closed spec fn entries(self) -> Seq<T> {
        self.0@
    }

    /// The entry in slot i: 0 up, 1 down, 2 left, 3 right.
    pub open spec fn entry(self, i: int) -> T {
        self.entries()[i]
    }

    pub fn new(up: T, down: T, left: T, right: T) -> (r: Self)
        ensures
            r.entry(0) == up,
            r.entry(1) == down,
            r.entry(2) == left,
            r.entry(3) == right,
    {
        Self([up, down, left, right])
    }

    fn get(&self, i: usize) -> (r: &T)
        requires
            i < 4,
        ensures
            *r == self.entry(i as int),
    {
        &self.0[i]
    }

    pub fn up(&self) -> (r: &T)
        ensures
            *r == self.entry(0),
    {
        self.get(0)
    }

    pub fn down(&self) -> (r: &T)
        ensures
            *r == self.entry(1),
    {
        self.get(1)
    }

    pub fn left(&self) -> (r: &T)
        ensures
            *r == self.entry(2),
    {
        self.get(2)
    }

    pub fn right(&self) -> (r: &T)
        ensures
            *r == self.entry(3),
    {
        self.get(3)
    }

    /// An iterator over the four entries in order.
    pub fn iter(&self) -> (r: std::slice::Iter<'_, T>)
        ensures
            vstd::std_specs::iter::IteratorSpec::remaining(&r) == self.entries().as_ref(),
    {
        let s = self.0.as_slice();
        proof {
            vstd::std_specs::slice::axiom_spec_slice_iter(s);
        }
        s.iter()
    }

    pub fn to_array(self) -> (r: [T; 4])
        ensures
            r@.len() == 4,
            forall|i: int| 0 <= i < 4 ==> r@[i] == self.entry(i),
    {
        self.0
    }
}

impl<T: Copy> Adjacency<T> {
    /// Applies func to each of the four entries, keeping the order.
    pub fn map<U, F: Fn(T) -> U>(self, func: F) -> (r: Adjacency<U>)
        requires
            forall|i: int| 0 <= i < 4 ==> call_requires(func, (self.entry(i),)),
        ensures
            forall|i: int| 0 <= i < 4 ==> call_ensures(func, (self.entry(i),), #[trigger] r.entry(i)),
    {
        proof {
            assert(call_requires(func, (self.entry(0),)));
            assert(call_requires(func, (self.entry(1),)));
            assert(call_requires(func, (self.entry(2),)));
            assert(call_requires(func, (self.entry(3),)));
        }
        Adjacency::new(func(self.0[0]), func(self.0[1]), func(self.0[2]), func(self.0[3]))
    }
}

} // verus!
