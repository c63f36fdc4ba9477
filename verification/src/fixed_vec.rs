use vstd::prelude::*;

verus! {

/// A vector with a fixed upper bound `MAX_DEPTH` on the number of elements it holds.
///
/// Pushing onto a full vector fails and leaves the vector unchanged; nothing
/// ever grows beyond `MAX_DEPTH` elements.
pub struct FixedVec<T, const MAX_DEPTH: usize> {
    items: Vec<T>,
}

impl<T, const MAX_DEPTH: usize> View for FixedVec<T, MAX_DEPTH> {
    type V = Seq<T>;

    closed spec fn view(&self) -> Seq<T> {
        self.items@
    }
}

impl<T, const MAX_DEPTH: usize> FixedVec<T, MAX_DEPTH> {
    #[verifier::type_invariant]
    spec fn bounded(&self) -> bool {
        self.items@.len() <= MAX_DEPTH
    }

    /// Moves the elements out, leaving the vector empty.
    fn take_items(&mut self) -> (items: Vec<T>)
        ensures
            items@ == old(self)@,
            items@.len() <= MAX_DEPTH,
            final(self)@ == Seq::<T>::empty(),
    {
        proof {
            use_type_invariant(&*self);
        }
        let mut items = Vec::new();
        std::mem::swap(&mut items, &mut self.items);
        items
    }

    /// Creates an empty vector.
    pub fn new() -> (v: Self)
        ensures
            v@ == Seq::<T>::empty(),
    {
        FixedVec { items: Vec::new() }
    }

    /// Appends `elem`, or fails when `MAX_DEPTH` elements are already held.
    pub fn push(&mut self, elem: T) -> (r: Result<(), ()>)
        ensures
            old(self)@.len() < MAX_DEPTH ==> r is Ok && final(self)@ == old(self)@.push(elem),
            old(self)@.len() >= MAX_DEPTH ==> r is Err && final(self)@ == old(self)@,
    {
        proof {
            use_type_invariant(&*self);
        }
        if self.items.len() >= MAX_DEPTH {
            return Err(());
        }
        let mut items = self.take_items();
        items.push(elem);
        self.items = items;
        Ok(())
    }

    /// Removes and returns the last element, if any.
    pub fn pop(&mut self) -> (r: Option<T>)
        ensures
            old(self)@.len() == 0 ==> r is None && final(self)@ == old(self)@,
            old(self)@.len() > 0 ==> r == Some(old(self)@.last()) && final(self)@
                == old(self)@.drop_last(),
    {
        proof {
            use_type_invariant(&*self);
        }
        let mut items = self.take_items();
        let r = items.pop();
        self.items = items;
        r
    }

    /// Removes every element.
    pub fn clear(&mut self)
        ensures
            final(self)@ == Seq::<T>::empty(),
    {
        self.items = Vec::new();
    }

    /// The number of elements held.
    pub fn len(&self) -> (n: usize)
        ensures
            n == self@.len(),
            n <= MAX_DEPTH,
    {
        proof {
            use_type_invariant(self);
        }
        self.items.len()
    }

    /// Whether no element is held.
    pub fn is_empty(&self) -> (b: bool)
        ensures
            b == (self@.len() == 0),
    {
        self.items.len() == 0
    }

    /// The elements as a slice, first pushed first.
    pub fn as_slice(&self) -> (s: &[T])
        ensures
            s@ == self@,
    {
        self.items.as_slice()
    }

    /// The element at index `i`, if there is one.
    pub fn get(&self, i: usize) -> (r: Option<&T>)
        ensures
            i < self@.len() ==> r == Some(&self@[i as int]),
            i >= self@.len() ==> r is None,
    {
        if i < self.items.len() {
            Some(&self.items[i])
        } else {
            None
        }
    }

    /// The last element, if there is one.
    pub fn last(&self) -> (r: Option<&T>)
        ensures
            self@.len() > 0 ==> r == Some(&self@.last()),
            self@.len() == 0 ==> r is None,
    {
        let n = self.items.len();
        if n > 0 {
            Some(&self.items[n - 1])
        } else {
            None
        }
    }

    /// Replaces the element at index `i` with `elem`.
    pub fn set(&mut self, i: usize, elem: T)
        requires
            i < old(self)@.len(),
        ensures
            final(self)@ == old(self)@.update(i as int, elem),
    {
        let mut items = self.take_items();
        items.set(i, elem);
        self.items = items;
    }

    /// Reverses the order of the elements in place.
    pub fn reverse(&mut self)
        ensures
            final(self)@ == old(self)@.reverse(),
    {
        proof {
            use_type_invariant(&*self);
        }
        let mut items = self.take_items();
        let ghost orig = items@;
        let mut reversed: Vec<T> = Vec::new();
        while items.len() > 0
            invariant
                orig.len() <= MAX_DEPTH,
                items@.len() + reversed@.len() == orig.len(),
                items@ == orig.take(items@.len() as int),
                reversed@ == orig.reverse().take(reversed@.len() as int),
            decreases items@.len(),
        {
            let ghost k = items@.len();
            let x = items.pop().unwrap();
            proof {
                assert(x == orig[k - 1]);
                assert(orig.reverse()[reversed@.len() as int] == orig[k - 1]);
                assert(reversed@.push(x) =~= orig.reverse().take(reversed@.len() as int + 1));
                assert(items@ =~= orig.take(k - 1));
            }
            reversed.push(x);
        }
        proof {
            assert(reversed@ =~= orig.reverse());
        }
        self.items = reversed;
    }
}

} // verus!
