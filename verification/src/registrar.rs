//! The registrar and the driver.
//!
//! The registrar is the hook body that runs on every marker attachment: it
//! looks the marker's type key up in the registration table, stores a fresh
//! routine handle for it on the first attachment, and reports a skip on every
//! later one. The driver turns the table into an invocation plan: one handle
//! per registered type, each exactly once.
//!
//! The model of an execution is the attachment history, the sequence of type
//! keys in attachment order. `distinct_firsts` gives the table contents the
//! history leads to, and `diags_of` the diagnostics it emits; the registrar
//! carries its history as ghost state, so every run is tied to the model.

use vstd::prelude::*;

use crate::table::{contains_key, keys_distinct, Entry, RegistrationTable, RoutineHandle, TypeKey};

verus! {

/// What the registrar reports for one attachment: either the marker's type
/// was seen for the first time and its routine was registered, or a routine
/// for it already existed and the attachment was skipped.
#[derive(Clone, Copy, Debug, PartialEq, Eq, Structural)]
pub enum Diagnostic {
    Registered(TypeKey),
    Skipped(TypeKey),
}

/// The keys of a table snapshot, in insertion order.
pub open spec fn keys_of(s: Seq<Entry>) -> Seq<TypeKey> {
    s.map_values(|e: Entry| e.key)
}

/// The handles of a table snapshot, in insertion order.
pub open spec fn handles_of(s: Seq<Entry>) -> Seq<RoutineHandle> {
    s.map_values(|e: Entry| e.handle)
}

/// The first occurrence of each key of `keys`, in first-seen order: the table
/// keys that an attachment history `keys` leads to, starting from the empty
/// table.
pub open spec fn distinct_firsts(keys: Seq<TypeKey>) -> Seq<TypeKey>
    decreases keys.len(),
{
    if keys.len() == 0 {
        Seq::empty()
    } else {
        let prefix = distinct_firsts(keys.drop_last());
        if prefix.contains(keys.last()) {
            prefix
        } else {
            prefix.push(keys.last())
        }
    }
}

/// The diagnostic the registrar emits for an attachment of `key` after the
/// attachment history `h`.
pub open spec fn attach_diag(h: Seq<TypeKey>, key: TypeKey) -> Diagnostic {
    if h.contains(key) {
        Diagnostic::Skipped(key)
    } else {
        Diagnostic::Registered(key)
    }
}

/// The diagnostics an attachment history emits, in attachment order.
pub open spec fn diags_of(keys: Seq<TypeKey>) -> Seq<Diagnostic>
    decreases keys.len(),
{
    if keys.len() == 0 {
        Seq::empty()
    } else {
        diags_of(keys.drop_last()).push(attach_diag(keys.drop_last(), keys.last()))
    }
}

/// How many elements of `s` equal `k`.
pub open spec fn count_key(s: Seq<TypeKey>, k: TypeKey) -> int
    decreases s.len(),
{
    if s.len() == 0 {
        0
    } else {
        count_key(s.drop_last(), k) + if s.last() == k {
            1int
        } else {
            0int
        }
    }
}

/// How many elements of `s` equal `d`.
pub open spec fn count_diag(s: Seq<Diagnostic>, d: Diagnostic) -> int
    decreases s.len(),
{
    if s.len() == 0 {
        0
    } else {
        count_diag(s.drop_last(), d) + if s.last() == d {
            1int
        } else {
            0int
        }
    }
}

proof fn lemma_keys_of_push(s: Seq<Entry>, e: Entry)
    ensures
        keys_of(s.push(e)) == keys_of(s).push(e.key),
{
    assert(keys_of(s.push(e)) =~= keys_of(s).push(e.key));
}

proof fn lemma_contains_key_keys_of(s: Seq<Entry>, k: TypeKey)
    ensures
        contains_key(s, k) <==> keys_of(s).contains(k),
{
    if contains_key(s, k) {
        let i = choose|i: int| 0 <= i < s.len() && s[i].key == k;
        assert(keys_of(s)[i] == k);
        assert(keys_of(s).contains(k));
    }
    if keys_of(s).contains(k) {
        let i = choose|i: int| 0 <= i < keys_of(s).len() && keys_of(s)[i] == k;
        assert(s[i].key == k);
    }
}

proof fn lemma_distinct_firsts_contains(keys: Seq<TypeKey>, k: TypeKey)
    ensures
        distinct_firsts(keys).contains(k) <==> keys.contains(k),
    decreases keys.len(),
{
    if keys.len() == 0 {
    } else {
        let h = keys.drop_last();
        let x = keys.last();
        lemma_distinct_firsts_contains(h, k);
        assert(keys =~= h.push(x));
        vstd::seq_lib::lemma_seq_contains_after_push(h, x, k);
        vstd::seq_lib::lemma_seq_contains_after_push(distinct_firsts(h), x, k);
    }
}

proof fn lemma_distinct_firsts_nodup(keys: Seq<TypeKey>)
    ensures
        forall|i: int, j: int|
            0 <= i < j < distinct_firsts(keys).len() ==> distinct_firsts(keys)[i] != distinct_firsts(
                keys,
            )[j],
    decreases keys.len(),
{
    if keys.len() == 0 {
    } else {
        let h = keys.drop_last();
        let x = keys.last();
        lemma_distinct_firsts_nodup(h);
        let p = distinct_firsts(h);
        if !p.contains(x) {
            assert forall|i: int, j: int| 0 <= i < j < p.push(x).len() implies p.push(x)[i]
                != p.push(x)[j] by {
                if j == p.len() {
                    if p[i] == x {
                        assert(p.contains(x));
                    }
                }
            }
        }
    }
}

proof fn lemma_count_key_push(s: Seq<TypeKey>, x: TypeKey, k: TypeKey)
    ensures
        count_key(s.push(x), k) == count_key(s, k) + if x == k {
            1int
        } else {
            0int
        },
{
    assert(s.push(x).drop_last() =~= s);
}

proof fn lemma_count_diag_push(s: Seq<Diagnostic>, x: Diagnostic, d: Diagnostic)
    ensures
        count_diag(s.push(x), d) == count_diag(s, d) + if x == d {
            1int
        } else {
            0int
        },
{
    assert(s.push(x).drop_last() =~= s);
}

proof fn lemma_count_key_contains(s: Seq<TypeKey>, k: TypeKey)
    ensures
        count_key(s, k) >= 0,
        count_key(s, k) >= 1 <==> s.contains(k),
    decreases s.len(),
{
    if s.len() == 0 {
    } else {
        let h = s.drop_last();
        let x = s.last();
        lemma_count_key_contains(h, k);
        assert(s =~= h.push(x));
        vstd::seq_lib::lemma_seq_contains_after_push(h, x, k);
        lemma_count_key_push(h, x, k);
    }
}

proof fn lemma_distinct_firsts_count(keys: Seq<TypeKey>, k: TypeKey)
    ensures
        count_key(distinct_firsts(keys), k) == if keys.contains(k) {
            1int
        } else {
            0int
        },
    decreases keys.len(),
{
    if keys.len() == 0 {
    } else {
        let h = keys.drop_last();
        let x = keys.last();
        lemma_distinct_firsts_count(h, k);
        lemma_distinct_firsts_contains(h, x);
        lemma_distinct_firsts_contains(h, k);
        assert(keys =~= h.push(x));
        vstd::seq_lib::lemma_seq_contains_after_push(h, x, k);
        let p = distinct_firsts(h);
        if !p.contains(x) {
            lemma_count_key_push(p, x, k);
        }
    }
}

proof fn lemma_diag_counts_general(keys: Seq<TypeKey>, k: TypeKey)
    ensures
        count_diag(diags_of(keys), Diagnostic::Registered(k)) == if keys.contains(k) {
            1int
        } else {
            0int
        },
        count_diag(diags_of(keys), Diagnostic::Skipped(k)) == count_key(keys, k) - if keys.contains(
            k,
        ) {
            1int
        } else {
            0int
        },
    decreases keys.len(),
{
    if keys.len() == 0 {
    } else {
        let h = keys.drop_last();
        let x = keys.last();
        lemma_diag_counts_general(h, k);
        lemma_count_key_contains(h, k);
        assert(keys =~= h.push(x));
        vstd::seq_lib::lemma_seq_contains_after_push(h, x, k);
        lemma_diags_of_push(h, x);
        let dg = attach_diag(h, x);
        lemma_count_diag_push(diags_of(h), dg, Diagnostic::Registered(k));
        lemma_count_diag_push(diags_of(h), dg, Diagnostic::Skipped(k));
        lemma_count_key_push(h, x, k);
    }
}

/// The registrar: the registration table together with the ghost attachment
/// history that produced it. Its well-formedness ties the two together (the
/// table keys are exactly the first occurrences of the history) and pins each
/// stored handle to its registration order, which is what makes handles
/// pairwise distinct.
pub struct Registrar {
    table: RegistrationTable,
    history: Ghost<Seq<TypeKey>>,
}

impl Registrar {
    /// The attachment history: every key ever attached, in attachment order.
    pub closed spec fn history(self) -> Seq<TypeKey> {
        self.history@
    }

    /// The table contents, in insertion order.
    pub closed spec fn table_view(self) -> Seq<Entry> {
        self.table@
    }

    pub open spec fn wf(self) -> bool {
        &&& keys_of(self.table_view()) == distinct_firsts(self.history())
        &&& forall|i: int|
            0 <= i < self.table_view().len() ==> (#[trigger] self.table_view()[i]).handle.id as int
                == i
    }

    /// A registrar with no attachments seen and an empty table.
    pub fn new() -> (r: Registrar)
        ensures
            r.wf(),
            r.history() == Seq::<TypeKey>::empty(),
            r.table_view() == Seq::<Entry>::empty(),
    {
        let table = RegistrationTable::new();
        let r = Registrar { table, history: Ghost(Seq::empty()) };
        proof {
            assert(keys_of(r.table_view()) =~= Seq::<TypeKey>::empty());
        }
        r
    }

    /// Read access to the registration table.
    pub fn table(&self) -> (t: &RegistrationTable)
        ensures
            t@ == self.table_view(),
    {
        &self.table
    }

    /// The hook body, run on every attachment of a marker whose type key is
    /// `key`: on the first attachment of that key, store a fresh handle (the
    /// next registration index) and report it registered; on every later one,
    /// leave the table alone and report the attachment skipped.
    pub fn attach(&mut self, key: TypeKey) -> (d: Diagnostic)
        requires
            old(self).wf(),
        ensures
            final(self).wf(),
            final(self).history() == old(self).history().push(key),
            d == attach_diag(old(self).history(), key),
            old(self).history().contains(key) ==> final(self).table_view() == old(
                self,
            ).table_view(),
            !old(self).history().contains(key) ==> final(self).table_view() == old(
                self,
            ).table_view().push(
                (Entry { key, handle: RoutineHandle { id: old(self).table_view().len() as usize } }),
            ),
    {
        let ghost old_hist = self.history@;
        let ghost old_table = self.table@;
        let already = self.table.contains(key);
        proof {
            lemma_contains_key_keys_of(old_table, key);
            lemma_distinct_firsts_contains(old_hist, key);
            assert(already <==> old_hist.contains(key));
        }
        if already {
            self.history = Ghost(old_hist.push(key));
            proof {
                assert(old_hist.push(key).drop_last() =~= old_hist);
            }
            Diagnostic::Skipped(key)
        } else {
            proof {
                lemma_distinct_firsts_nodup(old_hist);
                assert forall|i: int, j: int| 0 <= i < j < old_table.len() implies old_table[i].key
                    != old_table[j].key by {
                    assert(keys_of(old_table)[i] == old_table[i].key);
                    assert(keys_of(old_table)[j] == old_table[j].key);
                }
                assert(keys_distinct(old_table));
            }
            let handle = RoutineHandle { id: self.table.len() };
            self.table.insert(key, handle);
            self.history = Ghost(old_hist.push(key));
            proof {
                let e = Entry { key, handle };
                lemma_keys_of_push(old_table, e);
                assert(old_hist.push(key).drop_last() =~= old_hist);
                assert(keys_of(self.table@) == distinct_firsts(old_hist).push(key));
                assert forall|i: int| 0 <= i < self.table@.len() implies (
                #[trigger] self.table@[i]).handle.id as int == i by {
                    if i < old_table.len() {
                        assert(self.table@[i] == old_table[i]);
                        assert((old(self).table_view()[i]).handle.id as int == i);
                    } else {
                        assert(self.table@[i] == e);
                    }
                }
            }
            Diagnostic::Registered(key)
        }
    }

    /// One driver cycle: the plan of routine handles to invoke, one per table
    /// entry, in table order. The plan covers every registered type exactly
    /// once: its length is the number of table entries and no handle repeats.
    pub fn driver_cycle(&self) -> (plan: Vec<RoutineHandle>)
        requires
            self.wf(),
        ensures
            plan@ == handles_of(self.table_view()),
            plan@.len() == self.table_view().len(),
            forall|i: int, j: int| 0 <= i < j < plan@.len() ==> plan@[i] != plan@[j],
    {
        let snapshot = self.table.iterate();
        let n = snapshot.len();
        let mut plan: Vec<RoutineHandle> = Vec::new();
        let mut i: usize = 0;
        while i < n
            invariant
                self.wf(),
                snapshot@ == self.table_view(),
                n == snapshot@.len(),
                i <= n,
                plan@ == handles_of(self.table_view()).take(i as int),
            decreases n - i,
        {
            plan.push(snapshot[i].handle);
            proof {
                let hs = handles_of(self.table_view());
                assert(hs[i as int] == self.table_view()[i as int].handle);
                assert(hs.take(i as int).push(hs[i as int]) =~= hs.take(i as int + 1));
            }
            i = i + 1;
        }
        proof {
            let hs = handles_of(self.table_view());
            assert(hs.take(n as int) =~= hs);
            assert forall|i: int, j: int| 0 <= i < j < plan@.len() implies plan@[i] != plan@[j] by {
                assert(plan@[i] == self.table_view()[i].handle);
                assert(plan@[j] == self.table_view()[j].handle);
            }
        }
        plan
    }
}

/// Law: one registration per type. In a well-formed registrar whose history
/// mentions `k` at all (it was attached one or more times, to any entities,
/// in any order), exactly one table entry stores `k`.
pub proof fn lemma_single_registration(r: Registrar, k: TypeKey)
    requires
        r.wf(),
        r.history().contains(k),
    ensures
        count_key(keys_of(r.table_view()), k) == 1,
{
    lemma_distinct_firsts_count(r.history(), k);
}

/// Law: the table tracks the history. A well-formed registrar's table holds
/// an entry for `k` exactly when `k` was attached at least once.
pub proof fn lemma_table_tracks_history(r: Registrar, k: TypeKey)
    requires
        r.wf(),
    ensures
        contains_key(r.table_view(), k) <==> r.history().contains(k),
{
    lemma_contains_key_keys_of(r.table_view(), k);
    lemma_distinct_firsts_contains(r.history(), k);
}

/// Law: independent routines. Two distinct entries of a well-formed
/// registrar's table store distinct keys and distinct handles: every
/// registered type has a routine handle of its own.
pub proof fn lemma_independent_routines(r: Registrar, i: int, j: int)
    requires
        r.wf(),
        0 <= i < j < r.table_view().len(),
    ensures
        r.table_view()[i].key != r.table_view()[j].key,
        r.table_view()[i].handle != r.table_view()[j].handle,
{
    lemma_distinct_firsts_nodup(r.history());
    assert(keys_of(r.table_view())[i] == r.table_view()[i].key);
    assert(keys_of(r.table_view())[j] == r.table_view()[j].key);
}

/// Law: diagnostic counts. An attachment history that mentions `k` exactly
/// N >= 1 times emits, among its diagnostics in attachment order, exactly one
/// "registered" for `k` and exactly N - 1 "skipped" for `k`.
pub proof fn lemma_diagnostic_counts(keys: Seq<TypeKey>, k: TypeKey)
    requires
        keys.contains(k),
    ensures
        count_key(keys, k) >= 1,
        count_diag(diags_of(keys), Diagnostic::Registered(k)) == 1,
        count_diag(diags_of(keys), Diagnostic::Skipped(k)) == count_key(keys, k) - 1,
{
    lemma_count_key_contains(keys, k);
    lemma_diag_counts_general(keys, k);
}

/// Law: the diagnostics of a history grow one per attachment; the one for the
/// latest attachment is exactly what `Registrar::attach` returns for it.
pub proof fn lemma_diags_of_push(h: Seq<TypeKey>, k: TypeKey)
    ensures
        diags_of(h.push(k)) == diags_of(h).push(attach_diag(h, k)),
{
    assert(h.push(k).drop_last() =~= h);
}

} // verus!
