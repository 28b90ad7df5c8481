use vstd::prelude::*;

verus! {

/// A last-in first-out stack that can also take an element at its bottom.
#[derive(Debug, Clone)]
pub struct Stack<T> {
    elements: Vec<T>,
}

impl<T> View for Stack<T> {
    type V = Seq<T>;

    /// The elements from bottom (index 0) to top (last index).
    closed spec fn view(&self) -> Seq<T> {
        self.elements@
    }
}

impl<T> Stack<T> {
    pub fn new() -> (s: Self)
        ensures
            s@ == Seq::<T>::empty(),
    {
        Self { elements: Vec::new() }
    }

    pub fn len(&self) -> (n: usize)
        ensures
            n == self@.len(),
    {
        self.elements.len()
    }

    pub fn push(&mut self, el: T)
        ensures
            final(self)@ == old(self)@.push(el),
    {
        self.elements.push(el);
    }

    /// Removes and returns the top element; the stack must not be empty.
    pub fn pop(&mut self) -> (el: T)
        requires
            old(self)@.len() > 0,
        ensures
            el == old(self)@.last(),
            final(self)@ == old(self)@.drop_last(),
    {
        self.elements.pop().unwrap()
    }

    /// The top element; the stack must not be empty.
    pub fn peek(&self) -> (el: &T)
        requires
            self@.len() > 0,
        ensures
            *el == self@.last(),
    {
        let n = self.elements.len();
        &self.elements[n - 1]
    }

    /// Puts an element below all the others.
    pub fn insert_first(&mut self, el: T)
        ensures
            final(self)@ == seq![el] + old(self)@,
    {
        self.elements.insert(0, el);
        assert(self@ =~= seq![el] + old(self)@);
    }
}

} // verus!
