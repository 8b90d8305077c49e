//! The read path: compose query expansion with snapshot lookups.
//!
//! `fetch` concatenates the contents of the keys a query names, in query
//! order; a key the snapshot does not know contributes nothing.  `enumerate`
//! lists all known keys, one per line, in canonical order.

use vstd::prelude::*;
use vstd::string::StringExecFns;

use crate::query::{expand_query, query_to_paths};
use crate::snapshot::Snapshot;

verus! {

/// What one key contributes to a response: its content, or nothing when the
/// snapshot does not know the key.
pub open spec fn content_of(snap: Snapshot, k: Seq<char>) -> Seq<char> {
    match snap.spec_get(k) {
        Some(v) => v,
        None => Seq::empty(),
    }
}

/// The contributions of a list of keys, concatenated in order.
pub open spec fn concat_contents(snap: Snapshot, keys: Seq<Seq<char>>) -> Seq<char>
    decreases keys.len(),
{
    if keys.len() == 0 {
        Seq::empty()
    } else {
        concat_contents(snap, keys.drop_last()) + content_of(snap, keys.last())
    }
}

/// The full response body for a query against one snapshot.
pub open spec fn fetch_spec(snap: Snapshot, q: Seq<char>) -> Seq<char> {
    concat_contents(snap, expand_query(q))
}

/// A snapshot that knows no key contributes nothing, whatever the query.
pub proof fn lemma_concat_contents_empty(snap: Snapshot, keys: Seq<Seq<char>>)
    requires
        forall|k: Seq<char>| snap.spec_get(k) is None,
    ensures
        concat_contents(snap, keys) == Seq::<char>::empty(),
    decreases keys.len(),
{
    if keys.len() > 0 {
        lemma_concat_contents_empty(snap, keys.drop_last());
        assert(concat_contents(snap, keys) =~= Seq::<char>::empty());
    }
}

/// Resolves the query and concatenates the stored contents of the keys it
/// names, in order; unknown keys contribute the empty string.
pub fn fetch(snap: &Snapshot, components: String) -> (r: String)
    ensures
        r@ == fetch_spec(*snap, components@),
{
    let files: Vec<String> = query_to_paths(components);
    let ghost keys = files.deep_view();
    let mut css = String::new();
    let mut i: usize = 0;
    proof {
        assert(keys.take(0) =~= Seq::<Seq<char>>::empty());
    }
    while i < files.len()
        invariant
            i <= files.len(),
            keys == files.deep_view(),
            css@ == concat_contents(*snap, keys.take(i as int)),
        decreases files.len() - i,
    {
        match snap.get(&files[i]) {
            Some(content) => {
                css.append(content.as_str());
            },
            None => {},
        }
        proof {
            assert(keys.take(i as int + 1).drop_last() =~= keys.take(i as int));
            assert(keys.take(i as int + 1).last() == keys[i as int]);
            assert(keys[i as int] == files@[i as int]@);
            assert(css@ =~= concat_contents(*snap, keys.take(i as int + 1)));
        }
        i = i + 1;
    }
    proof {
        assert(keys.take(files@.len() as int) =~= keys);
    }
    css
}

/// The keys, joined with a newline between neighbours.
pub open spec fn join_lines(keys: Seq<Seq<char>>) -> Seq<char>
    decreases keys.len(),
{
    if keys.len() == 0 {
        Seq::empty()
    } else if keys.len() == 1 {
        keys[0]
    } else {
        join_lines(keys.drop_last()) + seq!['\n'] + keys.last()
    }
}

/// Lists every key the snapshot knows, newline-separated, in canonical
/// (lexicographically sorted) order when the snapshot is well formed.
pub fn enumerate(snap: &Snapshot) -> (r: String)
    ensures
        r@ == join_lines(snap.key_seq()),
{
    let ks: Vec<String> = snap.keys();
    let ghost keys = snap.key_seq();
    let mut out = String::new();
    let mut i: usize = 0;
    proof {
        assert(keys.take(0) =~= Seq::<Seq<char>>::empty());
    }
    while i < ks.len()
        invariant
            i <= ks.len(),
            ks.deep_view() == keys,
            keys == snap.key_seq(),
            out@ == join_lines(keys.take(i as int)),
        decreases ks.len() - i,
    {
        if i > 0 {
            out.append("\n");
        }
        out.append(ks[i].as_str());
        proof {
            reveal_strlit("\n");
            assert("\n"@ =~= seq!['\n']);
            assert(keys.take(i as int + 1).drop_last() =~= keys.take(i as int));
            assert(keys.take(i as int + 1).last() == keys[i as int]);
            assert(keys[i as int] == ks@[i as int]@);
            if i == 0 {
                assert(out@ =~= join_lines(keys.take(1)));
            } else {
                assert(out@ =~= join_lines(keys.take(i as int + 1)));
            }
        }
        i = i + 1;
    }
    proof {
        assert(keys.take(ks@.len() as int) =~= keys);
    }
    out
}

} // verus!
