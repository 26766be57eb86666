//! The handle registry: a table of live objects keyed by opaque,
//! positive, never-reused integer handles.
//!
//! Callers across a foreign-function boundary hold handles instead of
//! references. A registry owns its objects outright; handles come from a
//! monotonic counter starting at 1, so a handle is never reissued even
//! after its object is unregistered. The embedding application owns the
//! registry instances (one per object kind) and guards each with its own
//! lock; this module holds the table itself and its guarantees.

use vstd::prelude::*;

verus! {

/// The mathematical state of a registry: the counter and the map from
/// live handles to objects.
pub struct RegistryModel<T> {
    pub next_handle: u64,
    pub entries: Map<u64, T>,
}

impl<T> RegistryModel<T> {
    /// Handles are positive, and no issued handle has reached the counter.
    pub open spec fn wf(self) -> bool {
        &&& self.next_handle >= 1
        &&& forall|k: u64| #[trigger] self.entries.dom().contains(k) ==> k < self.next_handle
    }
}

/// What one `generate_handle` call does to the model: the counter's
/// current value is issued, and the counter advances.
pub open spec fn spec_generate_handle<T>(v: RegistryModel<T>) -> (RegistryModel<T>, u64) {
    (
        RegistryModel { next_handle: (v.next_handle + 1) as u64, entries: v.entries },
        v.next_handle,
    )
}

/// What `register` does to the model: the object is stored under a fresh
/// handle, which is returned.
pub open spec fn spec_register<T>(v: RegistryModel<T>, obj: T) -> (RegistryModel<T>, u64) {
    (
        RegistryModel {
            next_handle: (v.next_handle + 1) as u64,
            entries: v.entries.insert(v.next_handle, obj),
        },
        v.next_handle,
    )
}

/// What `get` observes: the object under the handle, if the handle is live.
pub open spec fn spec_get<T>(v: RegistryModel<T>, handle: u64) -> Option<T> {
    if v.entries.dom().contains(handle) {
        Some(v.entries[handle])
    } else {
        None
    }
}

/// What `unregister` does: the entry is dropped if present, and whether
/// it was present is reported.
pub open spec fn spec_unregister<T>(v: RegistryModel<T>, handle: u64) -> (RegistryModel<T>, bool) {
    (
        RegistryModel { next_handle: v.next_handle, entries: v.entries.remove(handle) },
        v.entries.dom().contains(handle),
    )
}

/// The entries of an association list, as a map; later entries shadow
/// earlier ones, though a well-formed registry never has duplicate keys.
pub open spec fn assoc_map<T>(s: Seq<(u64, T)>) -> Map<u64, T>
    decreases s.len(),
{
    if s.len() == 0 {
        Map::empty()
    } else {
        assoc_map(s.drop_last()).insert(s.last().0, s.last().1)
    }
}

/// A registry of live objects of one kind.
pub struct HandleRegistry<T> {
    next_handle: u64,
    entries: Vec<(u64, T)>,
}

impl<T> View for HandleRegistry<T> {
    type V = RegistryModel<T>;

    closed spec fn view(&self) -> RegistryModel<T> {
        RegistryModel { next_handle: self.next_handle, entries: assoc_map(self.entries@) }
    }
}

// ---------------------------------------------------------------------------
// Association-list lemmas.
// ---------------------------------------------------------------------------
proof fn lemma_assoc_map_index<T>(s: Seq<(u64, T)>, i: int)
    requires
        0 <= i < s.len(),
        forall|a: int, b: int| 0 <= a < b < s.len() ==> (#[trigger] s[a]).0 != (#[trigger] s[b]).0,
    ensures
        assoc_map(s).dom().contains(s[i].0),
        assoc_map(s)[s[i].0] == s[i].1,
    decreases s.len(),
{
    if i == s.len() - 1 {
        assert(s.last() == s[i]);
    } else {
        assert(s.drop_last()[i] == s[i]);
        lemma_assoc_map_index(s.drop_last(), i);
        assert(s.last().0 != s[i].0);
    }
}

proof fn lemma_assoc_map_absent<T>(s: Seq<(u64, T)>, h: u64)
    requires
        forall|a: int| 0 <= a < s.len() ==> (#[trigger] s[a]).0 != h,
    ensures
        !assoc_map(s).dom().contains(h),
    decreases s.len(),
{
    if s.len() > 0 {
        lemma_assoc_map_absent(s.drop_last(), h);
        assert(s.last() == s[s.len() - 1]);
    }
}

proof fn lemma_assoc_map_remove<T>(s: Seq<(u64, T)>, i: int)
    requires
        0 <= i < s.len(),
        forall|a: int, b: int| 0 <= a < b < s.len() ==> (#[trigger] s[a]).0 != (#[trigger] s[b]).0,
    ensures
        assoc_map(s.remove(i)) == assoc_map(s).remove(s[i].0),
    decreases s.len(),
{
    if i == s.len() - 1 {
        assert(s.remove(i) =~= s.drop_last());
        assert forall|a: int| 0 <= a < s.drop_last().len() implies (#[trigger] s.drop_last()[a]).0
            != s[i].0 by {
            assert(s.drop_last()[a] == s[a]);
        }
        lemma_assoc_map_absent(s.drop_last(), s[i].0);
        assert(assoc_map(s).remove(s[i].0) =~= assoc_map(s.drop_last()));
    } else {
        assert(s.remove(i).drop_last() =~= s.drop_last().remove(i));
        assert(s.remove(i).last() == s.last());
        assert forall|a: int, b: int| 0 <= a < b < s.drop_last().len() implies (#[trigger] s.drop_last()[a]).0
            != (#[trigger] s.drop_last()[b]).0 by {
            assert(s.drop_last()[a] == s[a]);
            assert(s.drop_last()[b] == s[b]);
        }
        lemma_assoc_map_remove(s.drop_last(), i);
        assert(s.drop_last()[i] == s[i]);
        assert(s.last().0 != s[i].0);
        assert(assoc_map(s.drop_last()).remove(s[i].0).insert(s.last().0, s.last().1) =~= assoc_map(
            s.drop_last(),
        ).insert(s.last().0, s.last().1).remove(s[i].0));
    }
}

impl<T> HandleRegistry<T> {
    /// The registry's internal invariant: the counter is positive, the
    /// table's handles are strictly increasing, and all of them were
    /// issued before the counter's current value.
    pub closed spec fn wf(self) -> bool {
        &&& self.next_handle >= 1
        &&& forall|a: int, b: int|
            0 <= a < b < self.entries@.len() ==> (#[trigger] self.entries@[a]).0
                < (#[trigger] self.entries@[b]).0
        &&& forall|a: int|
            0 <= a < self.entries@.len() ==> (#[trigger] self.entries@[a]).0 < self.next_handle
    }

    /// An empty registry whose counter starts at 1.
    pub fn new() -> (r: HandleRegistry<T>)
        ensures
            r.wf(),
            r@.next_handle == 1,
            r@.entries == Map::<u64, T>::empty(),
    {
        let r = HandleRegistry { next_handle: 1, entries: Vec::new() };
        proof {
            assert(r@.entries =~= Map::<u64, T>::empty());
        }
        r
    }

    /// Issues the next handle without storing anything: the returned
    /// value is positive and was never issued before, and the counter
    /// advances past it.
    pub fn generate_handle(&mut self) -> (h: u64)
        requires
            old(self).wf(),
            old(self)@.next_handle < u64::MAX,
        ensures
            final(self).wf(),
            (final(self)@, h) == spec_generate_handle(old(self)@),
            h == old(self)@.next_handle,
            h >= 1,
            final(self)@.next_handle == h + 1,
            final(self)@.entries == old(self)@.entries,
    {
        let h = self.next_handle;
        self.next_handle = self.next_handle + 1;
        h
    }

    /// Takes ownership of `obj`, stores it under a fresh handle, and
    /// returns that handle.
    pub fn register(&mut self, obj: T) -> (h: u64)
        requires
            old(self).wf(),
            old(self)@.next_handle < u64::MAX,
        ensures
            final(self).wf(),
            (final(self)@, h) == spec_register(old(self)@, obj),
            h == old(self)@.next_handle,
            h >= 1,
            !old(self)@.entries.dom().contains(h),
            final(self)@.entries == old(self)@.entries.insert(h, obj),
            final(self)@.next_handle == h + 1,
    {
        let h = self.next_handle;
        proof {
            assert forall|a: int| 0 <= a < self.entries@.len() implies (#[trigger] self.entries@[a]).0
                != h by {}
            lemma_assoc_map_absent(self.entries@, h);
        }
        self.next_handle = self.next_handle + 1;
        self.entries.push((h, obj));
        proof {
            assert(self.entries@.drop_last() =~= old(self).entries@);
            assert(self.entries@.last() == (h, obj));
        }
        h
    }

    /// Looks up the object stored under `handle`; absence is not an
    /// error at this layer.
    pub fn get(&self, handle: u64) -> (r: Option<&T>)
        requires
            self.wf(),
        ensures
            match r {
                Some(t) => spec_get(self@, handle) == Some(*t),
                None => spec_get(self@, handle) is None,
            },
    {
        let n = self.entries.len();
        let mut k: usize = 0;
        while k < n
            invariant
                k <= n,
                n == self.entries@.len(),
                self.wf(),
                forall|j: int| 0 <= j < k ==> (#[trigger] self.entries@[j]).0 != handle,
            decreases n - k,
        {
            if self.entries[k].0 == handle {
                proof {
                    lemma_assoc_map_index(self.entries@, k as int);
                }
                return Some(&self.entries[k].1);
            }
            k = k + 1;
        }
        proof {
            lemma_assoc_map_absent(self.entries@, handle);
        }
        None
    }

    /// Removes and drops the entry under `handle` if it is present;
    /// reports whether a removal happened. A second call for the same
    /// handle returns `false`, never an error.
    pub fn unregister(&mut self, handle: u64) -> (removed: bool)
        requires
            old(self).wf(),
        ensures
            final(self).wf(),
            (final(self)@, removed) == spec_unregister(old(self)@, handle),
            removed == old(self)@.entries.dom().contains(handle),
            final(self)@.entries == old(self)@.entries.remove(handle),
            final(self)@.next_handle == old(self)@.next_handle,
    {
        let n = self.entries.len();
        let mut k: usize = 0;
        while k < n
            invariant
                k <= n,
                n == self.entries@.len(),
                *self == *old(self),
                self.wf(),
                forall|j: int| 0 <= j < k ==> (#[trigger] self.entries@[j]).0 != handle,
            decreases n - k,
        {
            if self.entries[k].0 == handle {
                proof {
                    lemma_assoc_map_index(self.entries@, k as int);
                    lemma_assoc_map_remove(self.entries@, k as int);
                }
                let _ = self.entries.remove(k);
                proof {
                    assert forall|a: int, b: int|
                        0 <= a < b < self.entries@.len() implies (#[trigger] self.entries@[a]).0
                        < (#[trigger] self.entries@[b]).0 by {
                        if b < k {
                            assert(self.entries@[a] == old(self).entries@[a]);
                            assert(self.entries@[b] == old(self).entries@[b]);
                        } else if a < k {
                            assert(self.entries@[a] == old(self).entries@[a]);
                            assert(self.entries@[b] == old(self).entries@[b + 1]);
                        } else {
                            assert(self.entries@[a] == old(self).entries@[a + 1]);
                            assert(self.entries@[b] == old(self).entries@[b + 1]);
                        }
                    }
                    assert forall|a: int| 0 <= a < self.entries@.len() implies (#[trigger] self.entries@[a]).0
                        < self.next_handle by {
                        if a < k {
                            assert(self.entries@[a] == old(self).entries@[a]);
                        } else {
                            assert(self.entries@[a] == old(self).entries@[a + 1]);
                        }
                    }
                }
                return true;
            }
            k = k + 1;
        }
        proof {
            lemma_assoc_map_absent(self.entries@, handle);
            assert(old(self)@.entries.remove(handle) =~= old(self)@.entries);
        }
        false
    }
}

// ---------------------------------------------------------------------------
// Laws.
// ---------------------------------------------------------------------------
/// The registry state after `n` consecutive `generate_handle` calls.
pub open spec fn spec_after_generates<T>(v: RegistryModel<T>, n: nat) -> RegistryModel<T>
    decreases n,
{
    if n == 0 {
        v
    } else {
        spec_generate_handle(spec_after_generates(v, (n - 1) as nat)).0
    }
}

/// The handle returned by the `n + 1`-th consecutive `generate_handle` call.
pub open spec fn spec_handle_at<T>(v: RegistryModel<T>, n: nat) -> u64 {
    spec_generate_handle(spec_after_generates(v, n)).1
}

proof fn lemma_after_generates_counter<T>(v: RegistryModel<T>, n: nat)
    requires
        v.next_handle + n <= u64::MAX,
    ensures
        spec_after_generates(v, n).next_handle == v.next_handle + n,
        spec_after_generates(v, n).entries == v.entries,
    decreases n,
{
    if n > 0 {
        lemma_after_generates_counter(v, (n - 1) as nat);
    }
}

/// Consecutive `generate_handle` calls yield distinct, strictly
/// increasing, positive handles: of any two such calls, the earlier
/// returns the smaller value, and every value returned is positive.
pub proof fn lemma_handles_strictly_increasing<T>(v: RegistryModel<T>, i: nat, j: nat)
    requires
        v.wf(),
        i < j,
        v.next_handle + j <= u64::MAX,
    ensures
        1 <= spec_handle_at(v, i),
        spec_handle_at(v, i) < spec_handle_at(v, j),
{
    lemma_after_generates_counter(v, i);
    lemma_after_generates_counter(v, j);
}

/// The registry lifecycle: registering an object yields a handle under
/// which `get` finds exactly that object; unregistering that handle
/// succeeds and removes it, after which `get` finds nothing and a second
/// unregister reports `false`.
pub proof fn lemma_registry_lifecycle<T>(v: RegistryModel<T>, obj: T)
    requires
        v.wf(),
        v.next_handle < u64::MAX,
    ensures
        ({
            let (v1, h) = spec_register(v, obj);
            let (v2, removed) = spec_unregister(v1, h);
            &&& spec_get(v1, h) == Some(obj)
            &&& removed
            &&& spec_get(v2, h) is None
            &&& !spec_unregister(v2, h).1
        }),
{
    let (v1, h) = spec_register(v, obj);
    assert(v1.entries.dom().contains(h));
    let (v2, removed) = spec_unregister(v1, h);
    assert(!v2.entries.dom().contains(h));
}

} // verus!
