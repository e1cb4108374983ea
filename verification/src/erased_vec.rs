//! A growable buffer whose element type-key is fixed at first use.

use vstd::prelude::*;

verus! {

/// A type-tagged vector: the element type-key is chosen at construction,
/// and every later operation must present the same key. What was undefined
/// behavior by caller contract in an erased buffer is a checked
/// precondition here.
pub struct ErasedVec<V> {
    /// The type-key fixed at construction.
    type_key: u64,
    /// The buffered values.
    items: Vec<V>,
}

impl<V> ErasedVec<V> {
    /// The type-key this buffer was constructed with.
    pub closed spec fn spec_type_key(&self) -> u64 {
        self.type_key
    }

    /// Returns the type-key this buffer was constructed with.
    #[verifier::when_used_as_spec(spec_type_key)]
    pub fn type_key(&self) -> (k: u64)
        ensures
            k == self.spec_type_key(),
    {
        self.type_key
    }

    /// The buffered values, oldest first.
    pub closed spec fn items(self) -> Seq<V> {
        self.items@
    }

    /// Creates a new, empty buffer tagged with the given type-key.
    pub fn new(type_key: u64) -> (r: Self)
        ensures
            r.type_key() == type_key,
            r.items() == Seq::<V>::empty(),
    {
        ErasedVec { type_key, items: Vec::new() }
    }

    /// Pushes a value to this buffer. The caller must present the
    /// construction type-key.
    pub fn push(&mut self, type_key: u64, value: V)
        requires
            type_key == old(self).type_key(),
        ensures
            final(self).type_key() == old(self).type_key(),
            final(self).items() == old(self).items().push(value),
    {
        self.items.push(value);
    }

    /// Appends all the given values to this buffer, in order. The caller
    /// must present the construction type-key.
    pub fn extend(&mut self, type_key: u64, values: Vec<V>)
        requires
            type_key == old(self).type_key(),
        ensures
            final(self).type_key() == old(self).type_key(),
            final(self).items() == old(self).items() + values@,
    {
        let mut values = values;
        self.items.append(&mut values);
    }

    /// Clears this buffer. The backing allocation is kept for reuse; the
    /// buffered values themselves are dropped, so element types owning
    /// other resources release them here rather than leaking across a
    /// clear-and-reuse cycle.
    pub fn clear(&mut self)
        ensures
            final(self).type_key() == old(self).type_key(),
            final(self).items() == Seq::<V>::empty(),
    {
        self.items.clear();
    }

    /// Returns the number of buffered values.
    pub fn len(&self) -> (n: usize)
        ensures
            n == self.items().len(),
    {
        self.items.len()
    }

    /// Reads the buffered value at `index`.
    pub fn get(&self, index: usize) -> (r: &V)
        requires
            index < self.items().len(),
        ensures
            *r == self.items()[index as int],
    {
        &self.items[index]
    }

    /// Moves the buffered values out, leaving the buffer empty with its
    /// type-key unchanged.
    pub fn take_items(&mut self) -> (r: Vec<V>)
        ensures
            final(self).type_key() == old(self).type_key(),
            final(self).items() == Seq::<V>::empty(),
            r@ == old(self).items(),
    {
        let mut out: Vec<V> = Vec::new();
        std::mem::swap(&mut self.items, &mut out);
        out
    }
}

} // verus!
