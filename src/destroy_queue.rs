use vstd::prelude::*;

verus! {

/// Graphics-bound resources whose owners have let go of them, waiting for the
/// render thread to tear them down. Adding never destroys anything.
pub struct DestroyQueue<T> {
    items: Vec<T>,
}

impl<T> DestroyQueue<T> {
    /// The resources waiting, in the order they were added.
    pub closed spec fn pending(&self) -> Seq<T> {
        self.items@
    }

    pub fn new() -> (r: Self)
        ensures
            r.pending().len() == 0,
    {
        DestroyQueue { items: Vec::new() }
    }

    pub fn len(&self) -> (r: usize)
        ensures
            r == self.pending().len(),
    {
        self.items.len()
    }

    /// Takes ownership of a resource; it is torn down at the next drain.
    pub fn add(&mut self, resource: T)
        ensures
            final(self).pending() == old(self).pending().push(resource),
    {
        self.items.push(resource);
    }

    /// Hands over every waiting resource, in the order added, for teardown.
    pub fn drain(&mut self) -> (r: Vec<T>)
        ensures
            r@ == old(self).pending(),
            final(self).pending().len() == 0,
    {
        let mut out: Vec<T> = Vec::new();
        std::mem::swap(&mut out, &mut self.items);
        out
    }
}

} // verus!
