//! The store: the process-wide holder of the current snapshot.
//!
//! One writer (the refresh loop) replaces the snapshot wholesale; arbitrarily
//! many concurrent readers acquire it without blocking.  A reader that cannot
//! acquire the store degrades to an empty result instead of waiting or
//! failing the request.

use vstd::prelude::*;

use crate::query::expand_query;
use crate::read_path::{enumerate, fetch, fetch_spec, join_lines, lemma_concat_contents_empty};
use crate::snapshot::Snapshot;

verus! {

#[verifier::external_type_specification]
#[verifier::external_body]
#[verifier::reject_recursive_types(T)]
pub struct ExRwLock<T: ?Sized>(std::sync::RwLock<T>);

/// Holds the current snapshot behind a reader-writer lock.  Every snapshot
/// that enters the lock is well formed (`new` and `replace` demand it, and
/// the field is private), which is what lets `try_read` promise well-formed
/// snapshots back out.
pub struct CacheStore {
    inner: std::sync::RwLock<Snapshot>,
}

impl CacheStore {
    /// Relies on `std::sync::RwLock::new` to wrap the initial snapshot.
    #[verifier::external_body]
    pub fn new(initial: Snapshot) -> (r: CacheStore)
        requires
            initial.wf(),
    {
        CacheStore { inner: std::sync::RwLock::new(initial) }
    }

    /// Relies on `std::sync::RwLock::try_read`: a non-blocking read attempt
    /// that fails fast under contention or poisoning instead of waiting or
    /// panicking.  On success the acquired snapshot is handed out whole, so a
    /// reader never observes a mix of two snapshots; which snapshot comes
    /// back depends on the timing of concurrent replacements, so nothing more
    /// than its well-formedness is promised.
    #[verifier::external_body]
    pub fn try_read(&self) -> (r: Option<Snapshot>)
        ensures
            r matches Some(s) ==> s.wf(),
    {
        match self.inner.try_read() {
            Ok(guard) => Some((*guard).clone()),
            Err(_) => None,
        }
    }

    /// Relies on `std::sync::RwLock::write` to install a new snapshot
    /// atomically: readers in flight keep whichever snapshot they acquired,
    /// and later reads see the new one whole.  A poisoned lock is recovered,
    /// since the complete snapshot being installed replaces the suspect one.
    #[verifier::external_body]
    pub fn replace(&self, snapshot: Snapshot)
        requires
            snapshot.wf(),
    {
        match self.inner.write() {
            Ok(mut guard) => {
                *guard = snapshot;
            },
            Err(poisoned) => {
                *poisoned.into_inner() = snapshot;
            },
        }
    }
}

/// The response body for a fragment query: always the fetch result over one
/// whole, well-formed snapshot — never a mix of two.  When the store cannot
/// be read the body is empty, which is the fetch result over the empty
/// snapshot.
pub fn css_body(store: &CacheStore, components: String) -> (r: String)
    ensures
        exists|snap: Snapshot| snap.wf() && r@ == fetch_spec(snap, components@),
{
    match store.try_read() {
        Some(snap) => {
            let r = fetch(&snap, components);
            proof {
                assert(snap.wf() && r@ == fetch_spec(snap, components@));
            }
            r
        },
        None => {
            let empty: Snapshot = Snapshot::new();
            let r = String::new();
            proof {
                lemma_concat_contents_empty(empty, expand_query(components@));
                assert(empty.wf() && r@ == fetch_spec(empty, components@));
            }
            r
        },
    }
}

/// The listing body: every key of one whole, well-formed snapshot, one per
/// line, in canonical order.  Empty when the store cannot be read.
pub fn list_body(store: &CacheStore) -> (r: String)
    ensures
        exists|snap: Snapshot| snap.wf() && r@ == join_lines(snap.key_seq()),
{
    match store.try_read() {
        Some(snap) => {
            let r = enumerate(&snap);
            proof {
                assert(snap.wf() && r@ == join_lines(snap.key_seq()));
            }
            r
        },
        None => {
            let empty: Snapshot = Snapshot::new();
            let r = String::new();
            proof {
                assert(empty.key_seq() =~= Seq::<Seq<char>>::empty());
                assert(r@ =~= join_lines(empty.key_seq()));
                assert(empty.wf() && r@ == join_lines(empty.key_seq()));
            }
            r
        },
    }
}

/// One step of the refresh loop.  A successful compile is installed
/// wholesale as the new snapshot; a failed compile is discarded, so the
/// previous snapshot stays current and the loop goes on.
pub fn watcher_step(store: &CacheStore, compile_result: Option<Vec<(String, String)>>) -> (installed:
    bool)
    ensures
        installed == compile_result is Some,
{
    match compile_result {
        Some(pairs) => {
            let snap = Snapshot::from_pairs(pairs);
            store.replace(snap);
            true
        },
        None => false,
    }
}

} // verus!
