//! The client table: a slab of sessions, each holding the vote it cast
//! this round, keyed by the stable index that doubles as the reactor
//! token.  The slab itself comes from the `slab` crate, behind trusted
//! wrappers; everything built on top of them is verified.

use vstd::prelude::*;

use crate::model::Vote;

verus! {

#[verifier::external_type_specification]
#[verifier::external_body]
#[verifier::reject_recursive_types(T)]
pub struct ExSlab<T>(slab::Slab<T>);

/// The entries a slab of votes holds, by key.
pub uninterp spec fn slab_entries(s: slab::Slab<Option<Vote>>) -> Map<usize, Option<Vote>>;

/// Relies on Slab::insert: stores the value at some vacant key and
/// returns that key.
#[verifier::external_body]
fn slab_insert(s: &mut slab::Slab<Option<Vote>>, v: Option<Vote>) -> (key: usize)
    ensures
        !slab_entries(*old(s)).dom().contains(key),
        slab_entries(*final(s)) == slab_entries(*old(s)).insert(key, v),
{
    s.insert(v)
}

/// Relies on Slab::contains.
#[verifier::external_body]
fn slab_contains(s: &slab::Slab<Option<Vote>>, key: usize) -> (r: bool)
    ensures
        r == slab_entries(*s).dom().contains(key),
{
    s.contains(key)
}

/// Relies on the Slab IndexMut impl: replaces the value at an occupied
/// key.  It panics on a vacant key, which the precondition rules out.
#[verifier::external_body]
fn slab_set(s: &mut slab::Slab<Option<Vote>>, key: usize, v: Option<Vote>)
    requires
        slab_entries(*old(s)).dom().contains(key),
    ensures
        slab_entries(*final(s)) == slab_entries(*old(s)).insert(key, v),
{
    s[key] = v;
}

/// Relies on Slab::get.
#[verifier::external_body]
fn slab_get(s: &slab::Slab<Option<Vote>>, key: usize) -> (r: Option<Option<Vote>>)
    ensures
        r == if slab_entries(*s).dom().contains(key) {
            Some(slab_entries(*s)[key])
        } else {
            None::<Option<Vote>>
        },
{
    s.get(key).copied()
}

/// Relies on Slab::try_remove: takes the value at the key out, freeing
/// the key, or returns nothing for a vacant key.
#[verifier::external_body]
fn slab_try_remove(s: &mut slab::Slab<Option<Vote>>, key: usize) -> (r: Option<Option<Vote>>)
    ensures
        slab_entries(*final(s)) == slab_entries(*old(s)).remove(key),
        r == if slab_entries(*old(s)).dom().contains(key) {
            Some(slab_entries(*old(s))[key])
        } else {
            None::<Option<Vote>>
        },
{
    s.try_remove(key)
}

/// Relies on Slab::iter: yields each occupied entry exactly once, in
/// increasing key order.
#[verifier::external_body]
fn slab_entry_list(s: &slab::Slab<Option<Vote>>) -> (r: Vec<(usize, Option<Vote>)>)
    ensures
        forall|j: int|
            0 <= j < r@.len() ==> slab_entries(*s).contains_pair(#[trigger] r@[j].0, r@[j].1),
        forall|k: usize|
            slab_entries(*s).dom().contains(k) ==> exists|j: int|
                0 <= j < r@.len() && #[trigger] r@[j].0 == k,
        forall|j1: int, j2: int| 0 <= j1 < j2 < r@.len() ==> r@[j1].0 < r@[j2].0,
{
    s.iter().map(|(k, v)| (k, *v)).collect()
}

/// The table of connected clients: for each stable key, the vote that
/// client has cast this round, if any.
pub struct ClientTable {
    slab: slab::Slab<Option<Vote>>,
}

impl View for ClientTable {
    type V = Map<usize, Option<Vote>>;

    closed spec fn view(&self) -> Map<usize, Option<Vote>> {
        slab_entries(self.slab)
    }
}

impl ClientTable {
    /// The key set is finite: it grew by single insertions.
    pub open spec fn wf(&self) -> bool {
        self@.dom().finite()
    }

    /// An empty table.
    pub fn new() -> (t: ClientTable)
        ensures
            t@ == Map::<usize, Option<Vote>>::empty(),
            t.wf(),
    {
        let t = ClientTable { slab: slab_new() };
        proof {
            assert(t@ =~= Map::<usize, Option<Vote>>::empty());
        }
        t
    }

    /// Add a session with no pending vote; its fresh key is returned.
    pub fn insert(&mut self) -> (key: usize)
        requires
            old(self).wf(),
        ensures
            final(self).wf(),
            !old(self)@.dom().contains(key),
            final(self)@ == old(self)@.insert(key, None::<Vote>),
    {
        slab_insert(&mut self.slab, None)
    }

    /// Whether a session with this key is present.
    pub fn contains(&self, key: usize) -> (r: bool)
        ensures
            r == self@.dom().contains(key),
    {
        slab_contains(&self.slab, key)
    }

    /// The pending vote of the session at `key`, or `None` when no such
    /// session exists.
    pub fn get(&self, key: usize) -> (r: Option<Option<Vote>>)
        ensures
            r == if self@.dom().contains(key) {
                Some(self@[key])
            } else {
                None::<Option<Vote>>
            },
    {
        slab_get(&self.slab, key)
    }

    /// Store `v` as the pending vote of the session at `key`; reports
    /// whether such a session exists (nothing changes when it does not).
    pub fn set_vote(&mut self, key: usize, v: Option<Vote>) -> (ok: bool)
        requires
            old(self).wf(),
        ensures
            final(self).wf(),
            ok == old(self)@.dom().contains(key),
            ok ==> final(self)@ == old(self)@.insert(key, v),
            !ok ==> final(self)@ == old(self)@,
    {
        if slab_contains(&self.slab, key) {
            slab_set(&mut self.slab, key, v);
            true
        } else {
            false
        }
    }

    /// Remove the session at `key`, returning its pending vote, or
    /// `None` when no such session exists.
    pub fn remove(&mut self, key: usize) -> (r: Option<Option<Vote>>)
        requires
            old(self).wf(),
        ensures
            final(self).wf(),
            final(self)@ == old(self)@.remove(key),
            r == if old(self)@.dom().contains(key) {
                Some(old(self)@[key])
            } else {
                None::<Option<Vote>>
            },
    {
        slab_try_remove(&mut self.slab, key)
    }

    /// Every session, as `(key, pending_vote)` pairs in increasing key
    /// order.
    pub fn entries(&self) -> (r: Vec<(usize, Option<Vote>)>)
        ensures
            forall|j: int| 0 <= j < r@.len() ==> self@.contains_pair(#[trigger] r@[j].0, r@[j].1),
            forall|k: usize|
                self@.dom().contains(k) ==> exists|j: int|
                    0 <= j < r@.len() && #[trigger] r@[j].0 == k,
            forall|j1: int, j2: int| 0 <= j1 < j2 < r@.len() ==> r@[j1].0 < r@[j2].0,
    {
        slab_entry_list(&self.slab)
    }

    /// The stable keys of every session, for use as reactor tokens.
    pub fn keys(&self) -> (r: Vec<usize>)
        ensures
            forall|j: int| 0 <= j < r@.len() ==> self@.dom().contains(#[trigger] r@[j]),
            forall|k: usize|
                self@.dom().contains(k) ==> exists|j: int| 0 <= j < r@.len() && #[trigger] r@[j] == k,
    {
        let entries = self.entries();
        let mut r: Vec<usize> = Vec::new();
        let mut i: usize = 0;
        let n = entries.len();
        while i < n
            invariant
                i <= n,
                n == entries@.len(),
                r@.len() == i,
                forall|j: int| 0 <= j < entries@.len() ==> self@.contains_pair(
                    #[trigger] entries@[j].0,
                    entries@[j].1,
                ),
                forall|k: usize|
                    self@.dom().contains(k) ==> exists|j: int|
                        0 <= j < entries@.len() && #[trigger] entries@[j].0 == k,
                forall|j: int| 0 <= j < i ==> r@[j] == entries@[j].0,
            decreases n - i,
        {
            r.push(entries[i].0);
            i = i + 1;
        }
        proof {
            assert forall|k: usize| self@.dom().contains(k) implies exists|j: int|
                0 <= j < r@.len() && #[trigger] r@[j] == k by {
                let j = choose|j: int| 0 <= j < entries@.len() && #[trigger] entries@[j].0 == k;
                assert(r@[j] == k);
            }
        }
        r
    }
}

/// Relies on Slab::new: a slab with no entries.
#[verifier::external_body]
fn slab_new() -> (fresh: slab::Slab<Option<Vote>>)
    ensures
        forall|k: usize| !slab_entries(fresh).dom().contains(k),
{
    slab::Slab::new()
}

} // verus!
