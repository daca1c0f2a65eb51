//! A value derived from the contents of an index, kept until they change.

use vstd::prelude::*;

verus! {

/// A derived value of one kind: that of the current contents, and the one
/// before it, from which the next may be built.
pub struct DerivedSlot<T> {
    /// The content generation that `current` belongs to.
    pub generation: u64,
    /// The value of that generation.
    pub current: Option<T>,
    /// The value of the generation before it.
    pub prev: Option<T>,
}

impl<T> DerivedSlot<T> {
    /// The slot at a content generation: what was current before it is what
    /// comes before now.
    pub open spec fn rolled(&self, generation: u64) -> DerivedSlot<T> {
        if self.generation == generation {
            *self
        } else {
            DerivedSlot { generation, current: None, prev: self.current }
        }
    }

    /// Nothing derived yet.
    pub fn new(generation: u64) -> (r: DerivedSlot<T>)
        ensures
            r == (DerivedSlot::<T> { generation, current: None, prev: None }),
    {
        DerivedSlot { generation, current: None, prev: None }
    }

    /// Move on to a content generation.
    pub fn roll(&mut self, generation: u64)
        ensures
            *final(self) == old(self).rolled(generation),
    {
        if self.generation != generation {
            self.prev = self.current.take();
            self.generation = generation;
        }
    }

    /// The value from which the next is built: one of this generation that
    /// was rejected, else the one before it. It stays where it is, so that a
    /// build that fails can be tried again.
    pub fn basis(&self) -> (r: Option<&T>)
        ensures
            r == match self.current {
                Some(value) => Some(&value),
                None => match self.prev {
                    Some(value) => Some(&value),
                    None => None,
                },
            },
    {
        match &self.current {
            Some(value) => Some(value),
            None => match &self.prev {
                Some(value) => Some(value),
                None => None,
            },
        }
    }

    /// Publish the value of this generation.
    pub fn publish(&mut self, value: T)
        ensures
            *final(self) == (DerivedSlot {
                generation: old(self).generation,
                current: Some(value),
                prev: None,
            }),
    {
        self.prev = None;
        self.current = Some(value);
    }

    /// The value of a content generation, if it was derived; nothing is
    /// derived for it.
    pub fn probe(&self, generation: u64) -> (r: Option<&T>)
        ensures
            r == if self.generation == generation {
                match self.current {
                    Some(value) => Some(&value),
                    None => None,
                }
            } else {
                None
            },
    {
        if self.generation != generation {
            return None;
        }
        match &self.current {
            Some(value) => Some(value),
            None => None,
        }
    }
}

} // verus!
