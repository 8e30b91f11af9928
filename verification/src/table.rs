//! The registration table: a keyed store of routine handles.
//!
//! The table maps a type key to the handle of the routine registered for that
//! type. Keys are never overwritten: insertion requires that the key is
//! absent, and the registrar's check-then-insert discipline (see
//! `crate::registrar`) enforces that. Iteration hands back a snapshot of all
//! entries in insertion order.

use vstd::prelude::*;

verus! {

/// Identifier standing for one marker type. The host derives it from the
/// type itself (one stable numeric id per distinct type, for the life of the
/// process); the library only compares keys for equality.
#[derive(Clone, Copy, Debug, PartialEq, Eq, Hash, Structural)]
pub struct TypeKey {
    pub id: u64,
}

impl TypeKey {
    pub fn new(id: u64) -> (k: TypeKey)
        ensures
            k.id == id,
    {
        TypeKey { id }
    }
}

/// Reference to one registered routine. The registrar hands out handles in
/// registration order, so a handle doubles as an index into whatever store
/// the host keeps its runnable routines in.
#[derive(Clone, Copy, Debug, PartialEq, Eq, Structural)]
pub struct RoutineHandle {
    pub id: usize,
}

/// One table entry: the routine handle stored under a type key.
#[derive(Clone, Copy, Debug, PartialEq, Eq, Structural)]
pub struct Entry {
    pub key: TypeKey,
    pub handle: RoutineHandle,
}

/// Some entry of `s` stores `key`.
pub open spec fn contains_key(s: Seq<Entry>, key: TypeKey) -> bool {
    exists|i: int| 0 <= i < s.len() && s[i].key == key
}

/// No two entries of `s` store the same key.
pub open spec fn keys_distinct(s: Seq<Entry>) -> bool {
    forall|i: int, j: int| 0 <= i < j < s.len() ==> s[i].key != s[j].key
}

/// The registration table. Its view is the sequence of entries in insertion
/// order; well-formedness says the stored keys are pairwise distinct, so each
/// key resolves to at most one handle.
pub struct RegistrationTable {
    entries: Vec<Entry>,
}

impl View for RegistrationTable {
    type V = Seq<Entry>;

    closed spec fn view(&self) -> Seq<Entry> {
        self.entries@
    }
}

impl RegistrationTable {
    pub open spec fn wf(self) -> bool {
        keys_distinct(self@)
    }

    /// The empty table.
    pub fn new() -> (t: RegistrationTable)
        ensures
            t@ == Seq::<Entry>::empty(),
            t.wf(),
    {
        let t = RegistrationTable { entries: Vec::new() };
        proof {
            assert(t@ =~= Seq::<Entry>::empty());
        }
        t
    }

    /// How many distinct keys have been registered.
    pub fn len(&self) -> (n: usize)
        ensures
            n == self@.len(),
    {
        self.entries.len()
    }

    /// True iff a handle was previously stored for `key`. No side effects.
    pub fn contains(&self, key: TypeKey) -> (b: bool)
        ensures
            b == contains_key(self@, key),
    {
        let n = self.entries.len();
        let mut i: usize = 0;
        while i < n
            invariant
                n == self@.len(),
                i <= n,
                forall|j: int| 0 <= j < i ==> self@[j].key != key,
            decreases n - i,
        {
            if self.entries[i].key == key {
                return true;
            }
            i = i + 1;
        }
        false
    }

    /// Stores `handle` under `key`, appending the entry. The key must be
    /// absent: the table never overwrites, so the caller checks first.
    pub fn insert(&mut self, key: TypeKey, handle: RoutineHandle)
        requires
            old(self).wf(),
            !contains_key(old(self)@, key),
        ensures
            final(self)@ == old(self)@.push((Entry { key, handle })),
            final(self).wf(),
    {
        self.entries.push(Entry { key, handle });
    }

    /// A snapshot of all entries, in insertion order.
    pub fn iterate(&self) -> (snapshot: Vec<Entry>)
        ensures
            snapshot@ == self@,
    {
        let n = self.entries.len();
        let mut snapshot: Vec<Entry> = Vec::new();
        let mut i: usize = 0;
        while i < n
            invariant
                n == self@.len(),
                i <= n,
                snapshot@ == self@.take(i as int),
            decreases n - i,
        {
            snapshot.push(self.entries[i]);
            proof {
                assert(self@.take(i as int).push(self@[i as int]) =~= self@.take(i as int + 1));
            }
            i = i + 1;
        }
        proof {
            assert(self@.take(n as int) =~= self@);
        }
        snapshot
    }
}

} // verus!
