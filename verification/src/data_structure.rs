//! A last-in first-out stack with an optional name.

use vstd::prelude::*;

verus! {

/// A stack of elements, optionally named.
#[derive(Debug)]
pub struct Stack<T> {
    vec: Vec<T>,
    name: Option<String>,
}

impl<T> View for Stack<T> {
    type V = Seq<T>;

    /// The elements from the bottom to the top of the stack.
    closed spec fn view(&self) -> Seq<T> {
        self.vec@
    }
}

impl<T> Stack<T> {
    /// The name given to the stack, if any.
    pub closed spec fn spec_name(&self) -> Option<String> {
        self.name
    }

    /// An empty stack without a name.
    pub fn new() -> (r: Self)
        ensures
            r@ == Seq::<T>::empty(),
            r.spec_name() is None,
    {
        Self { vec: Vec::new(), name: None }
    }

    /// An empty stack with the given name.
    pub fn with_name(name: String) -> (r: Self)
        ensures
            r@ == Seq::<T>::empty(),
            r.spec_name() == Some(name),
    {
        Self { vec: Vec::new(), name: Some(name) }
    }

    /// Puts `element` on top of the stack.
    pub fn push(&mut self, element: T)
        ensures
            final(self)@ == old(self)@.push(element),
            final(self).spec_name() == old(self).spec_name(),
    {
        self.vec.push(element);
    }

    /// Takes the top element off the stack; `None` when it is empty.
    pub fn pop(&mut self) -> (r: Option<T>)
        ensures
            old(self)@.len() == 0 ==> r is None && final(self)@ == old(self)@,
            old(self)@.len() > 0 ==> r == Some(old(self)@.last()) && final(self)@ == old(self)@.drop_last(),
            final(self).spec_name() == old(self).spec_name(),
    {
        self.vec.pop()
    }

    /// The number of elements on the stack.
    pub fn len(&self) -> (r: usize)
        ensures
            r == self@.len(),
    {
        self.vec.len()
    }

    /// Whether the stack holds no element.
    pub fn is_empty(&self) -> (r: bool)
        ensures
            r == (self@.len() == 0),
    {
        self.vec.len() == 0
    }

    /// The elements from the bottom to the top of the stack.
    pub fn as_vec(&self) -> (r: &Vec<T>)
        ensures
            r@ == self@,
    {
        &self.vec
    }

    /// The name given to the stack, if any.
    pub fn name(&self) -> (r: &Option<String>)
        ensures
            *r == self.spec_name(),
    {
        &self.name
    }
}

/// Popping right after pushing `element` gives `element` back and leaves
/// the elements the stack held before: the values that `push` and `pop`
/// state of the stack's contents.
pub proof fn lemma_pop_after_push<T>(before: Seq<T>, element: T)
    ensures
        before.push(element).len() > 0,
        before.push(element).last() == element,
        before.push(element).drop_last() == before,
{
    assert(before.push(element).drop_last() =~= before);
}

} // verus!
