use vstd::prelude::*;

verus! {

/// A directory of live objects, each under a handle that is never reused.
/// The render thread enumerates it once per frame; owners add and remove.
pub struct Registry<T> {
    entries: Vec<(u64, T)>,
    next_id: u64,
}

impl<T> Registry<T> {
    /// The live members, in directory order, with their handles.
    pub closed spec fn members(&self) -> Seq<(u64, T)> {
        self.entries@
    }

    /// The handles of the live members, in directory order.
    pub open spec fn ids(&self) -> Seq<u64> {
        self.members().map_values(|e: (u64, T)| e.0)
    }

    /// The handle the next `add` hands out.
    pub closed spec fn next_handle(&self) -> u64 {
        self.next_id
    }

    pub open spec fn wf(&self) -> bool {
        &&& self.ids().no_duplicates()
        &&& forall|i: int| 0 <= i < self.ids().len() ==> #[trigger] self.ids()[i] < self.next_handle()
    }

    pub open spec fn contains(&self, id: u64) -> bool {
        self.ids().contains(id)
    }

    pub fn new() -> (r: Self)
        ensures
            r.wf(),
            r.members().len() == 0,
            r.next_handle() == 0,
    {
        Registry { entries: Vec::new(), next_id: 0 }
    }

    pub fn len(&self) -> (r: usize)
        ensures
            r == self.members().len(),
    {
        self.entries.len()
    }

    /// Whether a handle is left for another `add`.
    pub fn can_add(&self) -> (r: bool)
        ensures
            r == (self.next_handle() < u64::MAX),
    {
        self.next_id < u64::MAX
    }

    /// Records a new member under a fresh handle and returns that handle.
    pub fn add(&mut self, value: T) -> (id: u64)
        requires
            old(self).wf(),
            old(self).next_handle() < u64::MAX,
        ensures
            final(self).wf(),
            id == old(self).next_handle(),
            !old(self).contains(id),
            final(self).members() == old(self).members().push((id, value)),
            final(self).next_handle() == id + 1,
    {
        let id = self.next_id;
        self.entries.push((id, value));
        self.next_id = id + 1;
        proof {
            assert(self.ids() =~= old(self).ids().push(id));
        }
        id
    }

    /// Deletes the member under `id`, if there is one, and hands it back.
    pub fn remove(&mut self, id: u64) -> (r: Option<T>)
        requires
            old(self).wf(),
        ensures
            final(self).wf(),
            final(self).next_handle() == old(self).next_handle(),
            r is Some <==> old(self).contains(id),
            !final(self).contains(id),
            r is None ==> final(self).members() == old(self).members(),
            r is Some ==> exists|i: int|
                0 <= i < old(self).members().len() && old(self).members()[i] == (id, r->0)
                    && final(self).members() == old(self).members().remove(i),
    {
        let mut i: usize = 0;
        while i < self.entries.len()
            invariant
                self == old(self),
                self.wf(),
                0 <= i <= self.entries.len(),
                forall|j: int| 0 <= j < i ==> self.ids()[j] != id,
            decreases self.entries.len() - i,
        {
            if self.entries[i].0 == id {
                let ghost before = self.entries@;
                let e = self.entries.remove(i);
                proof {
                    let old_ids = old(self).ids();
                    assert(self.ids() =~= old_ids.remove(i as int));
                    assert forall|a: int, b: int|
                        0 <= a < b < self.ids().len() implies self.ids()[a] != self.ids()[b] by {
                        let aa = if a < i { a } else { a + 1 };
                        let bb = if b < i { b } else { b + 1 };
                        assert(old_ids[aa] != old_ids[bb]);
                    }
                    assert forall|k: int| 0 <= k < self.ids().len() implies self.ids()[k] != id by {
                        let kk = if k < i { k } else { k + 1 };
                        assert(old_ids[i as int] == id);
                        assert(kk != i);
                    }
                    assert forall|k: int| 0 <= k < self.ids().len() implies #[trigger] self.ids()[k]
                        < self.next_handle() by {
                        let kk = if k < i { k } else { k + 1 };
                        assert(old_ids[kk] < old(self).next_handle());
                    }
                    assert(before[i as int] == (id, e.1));
                }
                return Some(e.1);
            }
            i = i + 1;
        }
        proof {
            assert forall|k: int| 0 <= k < self.ids().len() implies self.ids()[k] != id by {}
        }
        None
    }

    /// Where the member under `id` stands in the directory, if it is alive.
    pub fn position(&self, id: u64) -> (r: Option<usize>)
        ensures
            r is Some <==> self.contains(id),
            r is Some ==> r->0 < self.members().len() && self.members()[r->0 as int].0 == id,
    {
        let mut i: usize = 0;
        while i < self.entries.len()
            invariant
                0 <= i <= self.entries.len(),
                forall|j: int| 0 <= j < i ==> self.ids()[j] != id,
            decreases self.entries.len() - i,
        {
            if self.entries[i].0 == id {
                proof {
                    assert(self.ids()[i as int] == id);
                }
                return Some(i);
            }
            i = i + 1;
        }
        proof {
            assert forall|j: int| 0 <= j < self.ids().len() implies self.ids()[j] != id by {}
        }
        None
    }

    /// The handles of every member alive now, each once.
    pub fn get_valid_contents(&self) -> (r: Vec<u64>)
        requires
            self.wf(),
        ensures
            r@ == self.ids(),
            r@.no_duplicates(),
            r@.len() == self.members().len(),
    {
        let mut out: Vec<u64> = Vec::new();
        let mut i: usize = 0;
        while i < self.entries.len()
            invariant
                0 <= i <= self.entries.len(),
                out@ == self.ids().take(i as int),
            decreases self.entries.len() - i,
        {
            out.push(self.entries[i].0);
            i = i + 1;
            proof {
                assert(out@ =~= self.ids().take(i as int));
            }
        }
        proof {
            assert(out@ =~= self.ids());
        }
        out
    }

    /// The handle of the member at position `i` of the directory.
    pub fn id_at(&self, i: usize) -> (r: u64)
        requires
            i < self.members().len(),
        ensures
            r == self.members()[i as int].0,
    {
        self.entries[i].0
    }

    /// Read access to the member at position `i` of the directory.
    pub fn member(&self, i: usize) -> (r: &T)
        requires
            i < self.members().len(),
        ensures
            *r == self.members()[i as int].1,
    {
        &self.entries[i].1
    }

    /// Write access to the member at position `i`; its handle stays.
    pub fn member_mut(&mut self, i: usize) -> (r: &mut T)
        requires
            i < old(self).members().len(),
        ensures
            *r == old(self).members()[i as int].1,
            final(self).members() == old(self).members().update(
                i as int,
                (old(self).members()[i as int].0, *final(r)),
            ),
            final(self).next_handle() == old(self).next_handle(),
    {
        &mut self.entries[i].1
    }
}

} // verus!
