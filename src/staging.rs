use vstd::prelude::*;

verus! {

/// The key a staged parameter write is filed under: material slot and
/// parameter name.
pub open spec fn entry_key<V>(e: (u32, String, V)) -> (u32, Seq<char>) {
    (e.0, e.1@)
}

pub open spec fn as_entry_key<V>() -> spec_fn((u32, String, V)) -> (u32, Seq<char>) {
    |e: (u32, String, V)| entry_key(e)
}

/// Keeping some of a list of writes with distinct keys keeps the keys
/// distinct, and keeps only writes from the list.
pub proof fn lemma_filter_keeps_keys_distinct<V>(
    s: Seq<(u32, String, V)>,
    p: spec_fn((u32, String, V)) -> bool,
)
    requires
        s.map_values(as_entry_key::<V>()).no_duplicates(),
    ensures
        s.filter(p).map_values(as_entry_key::<V>()).no_duplicates(),
        forall|e: (u32, String, V)| s.filter(p).contains(e) ==> s.contains(e),
    decreases s.len(),
{
    if s.len() > 0 {
        let t = s.drop_last();
        let x = s.last();
        let k = as_entry_key::<V>();
        assert(t.map_values(k) =~= s.map_values(k).drop_last());
        lemma_filter_keeps_keys_distinct(t, p);
        assert(s =~= t.push(x));
        t.lemma_filter_push(x, p);
        assert forall|e: (u32, String, V)| s.filter(p).contains(e) implies s.contains(e) by {
            s.lemma_filter_contains_rev(p, e);
        }
        if p(x) {
            let f = t.filter(p);
            assert(f.push(x).map_values(k) =~= f.map_values(k).push(k(x)));
            assert forall|a: int, b: int|
                0 <= a < b < f.len() + 1 implies f.push(x).map_values(k)[a] != f.push(x).map_values(
                k,
            )[b] by {
                if b == f.len() {
                    assert(f.contains(f[a]));
                    assert(t.contains(f[a]));
                    let i = choose|i: int| 0 <= i < t.len() && t[i] == f[a];
                    assert(s.map_values(k)[i] != s.map_values(k)[s.len() - 1]);
                }
            }
        }
    }
}

/// Parameter writes waiting for the render thread, at most one per
/// (slot, name): a later write to a key replaces the earlier one.
pub struct ParameterStaging<V> {
    entries: Vec<(u32, String, V)>,
}

impl<V> ParameterStaging<V> {
    /// The waiting writes, in the order their keys were first staged.
    pub closed spec fn entries(&self) -> Seq<(u32, String, V)> {
        self.entries@
    }

    pub open spec fn keys(&self) -> Seq<(u32, Seq<char>)> {
        self.entries().map_values(as_entry_key::<V>())
    }

    pub open spec fn wf(&self) -> bool {
        self.keys().no_duplicates()
    }

    /// The value waiting for each key.
    pub open spec fn staged(&self) -> Map<(u32, Seq<char>), V> {
        Map::new(
            |k: (u32, Seq<char>)| self.keys().contains(k),
            |k: (u32, Seq<char>)| self.entries()[self.keys().index_of(k)].2,
        )
    }

    pub fn new() -> (r: Self)
        ensures
            r.wf(),
            r.entries().len() == 0,
            r.staged() == Map::<(u32, Seq<char>), V>::empty(),
    {
        let r = ParameterStaging { entries: Vec::new() };
        proof {
            assert(r.staged() =~= Map::<(u32, Seq<char>), V>::empty());
        }
        r
    }

    pub fn len(&self) -> (r: usize)
        ensures
            r == self.entries().len(),
    {
        self.entries.len()
    }

    proof fn lemma_index_of(&self, i: int)
        requires
            self.wf(),
            0 <= i < self.keys().len(),
        ensures
            self.keys().index_of(self.keys()[i]) == i,
    {
        let k = self.keys()[i];
        assert(self.keys().contains(k));
        let j = self.keys().index_of(k);
        assert(0 <= j < self.keys().len() && self.keys()[j] == k);
    }

    /// Stages `value` for (`slot`, `name`), replacing a waiting write to the
    /// same key.
    pub fn set(&mut self, slot: u32, name: String, value: V)
        requires
            old(self).wf(),
        ensures
            final(self).wf(),
            final(self).staged() == old(self).staged().insert((slot, name@), value),
    {
        let ghost key = (slot, name@);
        let mut i: usize = 0;
        while i < self.entries.len()
            invariant
                self == old(self),
                self.wf(),
                key == (slot, name@),
                0 <= i <= self.entries.len(),
                forall|j: int| 0 <= j < i ==> self.keys()[j] != key,
            decreases self.entries.len() - i,
        {
            proof {
                assert(self.keys()[i as int] == entry_key(self.entries@[i as int]));
            }
            let same_slot = self.entries[i].0 == slot;
            let same_name = self.entries[i].1 == name;
            if same_slot && same_name {
                let ghost before = *self;
                self.entries.set(i, (slot, name, value));
                proof {
                    assert(self.keys() =~= before.keys());
                    assert(before.keys()[i as int] == key);
                    assert forall|k: (u32, Seq<char>)| #[trigger]
                        self.staged().contains_key(k) implies self.staged()[k]
                        == before.staged().insert(key, value)[k] by {
                        let j = self.keys().index_of(k);
                        assert(self.keys().contains(k));
                        assert(0 <= j < self.keys().len() && self.keys()[j] == k);
                        before.lemma_index_of(j);
                    }
                    assert(self.staged() =~= before.staged().insert(key, value));
                }
                return;
            }
            i = i + 1;
        }
        let ghost before = *self;
        self.entries.push((slot, name, value));
        proof {
            assert(self.keys() =~= before.keys().push(key));
            assert(!before.keys().contains(key));
            assert forall|a: int, b: int|
                0 <= a < b < self.keys().len() implies self.keys()[a] != self.keys()[b] by {
                if b == self.keys().len() - 1 {
                    assert(before.keys().contains(before.keys()[a]));
                }
            }
            let n = before.keys().len() as int;
            self.lemma_index_of(n);
            assert forall|k: (u32, Seq<char>)| #[trigger]
                self.staged().contains_key(k) implies self.staged()[k] == before.staged().insert(
                key,
                value,
            )[k] by {
                let j = self.keys().index_of(k);
                assert(self.keys().contains(k));
                assert(0 <= j < self.keys().len() && self.keys()[j] == k);
                self.lemma_index_of(j);
                if k != key {
                    assert(j < n);
                    before.lemma_index_of(j);
                }
            }
            assert forall|k: (u32, Seq<char>)| #[trigger]
                before.staged().insert(key, value).contains_key(k) implies self.staged().contains_key(k) by {
                if k != key {
                    let j = before.keys().index_of(k);
                    assert(before.keys().contains(k));
                    assert(self.keys()[j] == k);
                }
            }
            assert(self.staged() =~= before.staged().insert(key, value));
        }
    }

    /// Hands over every waiting write and leaves the staging empty.
    pub fn take_all(&mut self) -> (r: Vec<(u32, String, V)>)
        requires
            old(self).wf(),
        ensures
            r@ == old(self).entries(),
            final(self).wf(),
            final(self).entries().len() == 0,
    {
        let mut out: Vec<(u32, String, V)> = Vec::new();
        std::mem::swap(&mut out, &mut self.entries);
        proof {
            assert(self.keys() =~= Seq::<(u32, Seq<char>)>::empty());
        }
        out
    }
}

} // verus!
