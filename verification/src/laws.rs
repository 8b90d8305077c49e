//! Laws of the query grammar and the read path, stated over the same spec
//! functions the executable contracts use.

use vstd::prelude::*;

use crate::query::{
    expand_all, expand_fragment, expand_query, find_from, lemma_find_from, lemma_rfind, rfind,
    scoped_key, split_chars,
};
use crate::read_path::{concat_contents, content_of, fetch_spec};
use crate::snapshot::Snapshot;

verus! {

/// Splitting a separator-free string yields the string as its one piece.
pub proof fn lemma_split_no_sep(s: Seq<char>, sep: char)
    requires
        !s.contains(sep),
    ensures
        split_chars(s, sep) == seq![s],
{
    lemma_find_from(s, sep, 0);
    if find_from(s, sep, 0) < s.len() {
        assert(s[find_from(s, sep, 0)] == sep);
        assert(s.contains(sep));
    }
}

/// Splitting around one separator between two separator-free parts yields
/// exactly those parts.
pub proof fn lemma_split_single_sep(a: Seq<char>, b: Seq<char>, sep: char)
    requires
        !a.contains(sep),
        !b.contains(sep),
    ensures
        split_chars(a + seq![sep] + b, sep) == seq![a, b],
{
    let q = a + seq![sep] + b;
    let al = a.len() as int;
    assert(q[al] == sep);
    lemma_find_from(q, sep, 0);
    let j = find_from(q, sep, 0);
    if j < al {
        assert(q[j] == a[j]);
        assert(a.contains(sep));
    }
    if j > al {
        assert(q[al] != sep);
    }
    assert(j == al);
    assert(q.subrange(0, al) =~= a);
    assert(q.subrange(al + 1, q.len() as int) =~= b);
    lemma_split_no_sep(b, sep);
    assert(split_chars(q, sep) =~= seq![a, b]);
}

/// Splitting distributes over concatenation at a separator.
pub proof fn lemma_split_concat(q1: Seq<char>, q2: Seq<char>, sep: char)
    ensures
        split_chars(q1 + seq![sep] + q2, sep) == split_chars(q1, sep) + split_chars(q2, sep),
    decreases q1.len(),
{
    let q = q1 + seq![sep] + q2;
    let n1 = q1.len() as int;
    assert(q[n1] == sep);
    lemma_find_from(q, sep, 0);
    lemma_find_from(q1, sep, 0);
    let j1 = find_from(q1, sep, 0);
    let j = find_from(q, sep, 0);
    if j1 == q1.len() {
        // No separator inside `q1`: the first separator of the whole is the
        // joining one.
        if j < n1 {
            assert(q[j] == q1[j]);
        }
        if j > n1 {
            assert(q[n1] != sep);
        }
        assert(j == n1);
        assert(q.subrange(0, n1) =~= q1);
        assert(q.subrange(n1 + 1, q.len() as int) =~= q2);
        assert(split_chars(q, sep) =~= split_chars(q1, sep) + split_chars(q2, sep));
    } else {
        // The first separator of `q1` is the first of the whole; recurse on
        // what follows it.
        assert(q[j1] == q1[j1]);
        assert(q[j1] == sep);
        if j < j1 {
            assert(q[j] == q1[j]);
        }
        assert(j == j1);
        let tail1 = q1.subrange(j1 + 1, q1.len() as int);
        assert(q.subrange(0, j1) =~= q1.subrange(0, j1));
        assert(q.subrange(j1 + 1, q.len() as int) =~= tail1 + seq![sep] + q2);
        lemma_split_concat(tail1, q2, sep);
        assert(split_chars(q, sep) =~= split_chars(q1, sep) + split_chars(q2, sep));
    }
}

/// Expansion distributes over concatenation of fragment lists.
pub proof fn lemma_expand_all_append(x: Seq<Seq<char>>, y: Seq<Seq<char>>)
    ensures
        expand_all(x + y) == expand_all(x) + expand_all(y),
    decreases y.len(),
{
    if y.len() == 0 {
        assert(x + y =~= x);
        assert(expand_all(x) + expand_all(y) =~= expand_all(x));
    } else {
        assert((x + y).drop_last() =~= x + y.drop_last());
        assert((x + y).last() == y.last());
        lemma_expand_all_append(x, y.drop_last());
        assert(expand_all(x + y) =~= expand_all(x) + expand_all(y));
    }
}

/// The last `sep` of `s` stands at `i` when `s[i]` is `sep` and nothing after
/// it is.
pub proof fn lemma_rfind_at(s: Seq<char>, sep: char, i: int)
    requires
        0 <= i < s.len(),
        s[i] == sep,
        forall|j: int| i < j < s.len() ==> s[j] != sep,
    ensures
        rfind(s, sep) == i,
{
    lemma_rfind(s, sep);
    let r = rfind(s, sep);
    if r < i {
        assert(s[i] != sep);
    }
    if r > i {
        assert(s[r] == sep);
    }
}

/// A string without `sep` has no last occurrence of it.
pub proof fn lemma_rfind_none(s: Seq<char>, sep: char)
    requires
        !s.contains(sep),
    ensures
        rfind(s, sep) == -1,
{
    lemma_rfind(s, sep);
    if rfind(s, sep) >= 0 {
        assert(s[rfind(s, sep)] == sep);
        assert(s.contains(sep));
    }
}

/// A query that is one separator-free fragment expands to itself.
pub proof fn lemma_single_fragment(q: Seq<char>)
    requires
        !q.contains(','),
    ensures
        expand_query(q) == expand_fragment(q),
{
    lemma_split_no_sep(q, ',');
    assert(seq![q].drop_last() =~= Seq::<Seq<char>>::empty());
    assert(seq![q].last() == q);
    assert(expand_all(Seq::<Seq<char>>::empty()) == Seq::<Seq<char>>::empty());
    assert(expand_all(seq![q]) =~= expand_fragment(q));
}

/// A colon-scoped fragment with two pipe-branched sub-names expands to
/// exactly the two scoped keys, in order: `P:A|B` yields `[P:A, P:B]`.
/// The parent may itself contain colons or pipes; the sub-names must be free
/// of all three separators, and none may contain a comma.
pub proof fn lemma_scoped_branch_pair(p: Seq<char>, a: Seq<char>, b: Seq<char>)
    requires
        !p.contains(','),
        !a.contains(','),
        !a.contains(':'),
        !a.contains('|'),
        !b.contains(','),
        !b.contains(':'),
        !b.contains('|'),
    ensures
        expand_query(p + seq![':'] + a + seq!['|'] + b) == seq![
            scoped_key(p, a),
            scoped_key(p, b),
        ],
{
    let q = p + seq![':'] + a + seq!['|'] + b;
    let pl = p.len() as int;
    assert(!q.contains(',')) by {
        if q.contains(',') {
            let t = choose|t: int| 0 <= t < q.len() && q[t] == ',';
            if t < pl {
                assert(p[t] == ',');
            } else if t > pl && t < pl + 1 + a.len() {
                assert(a[t - pl - 1] == ',');
            } else if t > pl + 1 + a.len() {
                assert(b[t - pl - a.len() - 2] == ',');
            }
        }
    }
    lemma_single_fragment(q);
    assert(q.len() > 0);
    assert(q[pl] == ':');
    assert forall|j: int| pl < j < q.len() implies q[j] != ':' by {
        if j < pl + 1 + a.len() {
            assert(q[j] == a[j - pl - 1]);
        } else if j == pl + 1 + a.len() {
            assert(q[j] == '|');
        } else {
            assert(q[j] == b[j - pl - a.len() - 2]);
        }
    }
    lemma_rfind_at(q, ':', pl);
    let subs = q.subrange(pl + 1, q.len() as int);
    assert(subs =~= a + seq!['|'] + b);
    assert(q.subrange(0, pl) =~= p);
    lemma_split_single_sep(a, b, '|');
    let mapped = split_chars(subs, '|').map_values(|sub: Seq<char>| scoped_key(q.subrange(0, pl), sub));
    assert(expand_fragment(q) == mapped);
    assert(mapped =~= seq![scoped_key(p, a), scoped_key(p, b)]);
}

/// A plain fragment with two pipe-branched names expands to exactly the two
/// names, in order: `A|B` yields `[A, B]`.
pub proof fn lemma_plain_branch_pair(a: Seq<char>, b: Seq<char>)
    requires
        !a.contains(','),
        !a.contains(':'),
        !a.contains('|'),
        !b.contains(','),
        !b.contains(':'),
        !b.contains('|'),
    ensures
        expand_query(a + seq!['|'] + b) == seq![a, b],
{
    let q = a + seq!['|'] + b;
    let al = a.len() as int;
    assert(!q.contains(',')) by {
        if q.contains(',') {
            let t = choose|t: int| 0 <= t < q.len() && q[t] == ',';
            if t < al {
                assert(a[t] == ',');
            } else if t > al {
                assert(b[t - al - 1] == ',');
            }
        }
    }
    assert(!q.contains(':')) by {
        if q.contains(':') {
            let t = choose|t: int| 0 <= t < q.len() && q[t] == ':';
            if t < al {
                assert(a[t] == ':');
            } else if t > al {
                assert(b[t - al - 1] == ':');
            }
        }
    }
    lemma_single_fragment(q);
    assert(q.len() > 0);
    lemma_rfind_none(q, ':');
    lemma_split_single_sep(a, b, '|');
}

/// Comma-separated fragments expand independently: the whole expansion is the
/// concatenation of the two sides' expansions, in order, whatever either side
/// holds.
pub proof fn lemma_fragment_independence(q1: Seq<char>, q2: Seq<char>)
    ensures
        expand_query(q1 + seq![','] + q2) == expand_query(q1) + expand_query(q2),
{
    lemma_split_concat(q1, q2, ',');
    lemma_expand_all_append(split_chars(q1, ','), split_chars(q2, ','));
}

/// A query that names one comma- and pipe-free key resolves to exactly that
/// key, and fetching it returns exactly the content stored under it — the
/// stored content itself when the snapshot knows the key, the empty string
/// when it does not.
pub proof fn lemma_single_key_fetch(snap: Snapshot, k: Seq<char>)
    requires
        k.len() > 0,
        !k.contains(','),
        !k.contains('|'),
    ensures
        expand_query(k) == seq![k],
        fetch_spec(snap, k) == content_of(snap, k),
{
    lemma_single_fragment(k);
    let j = rfind(k, ':');
    lemma_rfind(k, ':');
    if j >= 0 {
        let subs = k.subrange(j + 1, k.len() as int);
        assert(!subs.contains('|')) by {
            if subs.contains('|') {
                let t = choose|t: int| 0 <= t < subs.len() && subs[t] == '|';
                assert(k[j + 1 + t] == '|');
            }
        }
        lemma_split_no_sep(subs, '|');
        let mapped = split_chars(subs, '|').map_values(
            |sub: Seq<char>| scoped_key(k.subrange(0, j), sub),
        );
        assert(expand_fragment(k) == mapped);
        assert(scoped_key(k.subrange(0, j), subs) =~= k);
        assert(mapped =~= seq![k]);
    } else {
        lemma_split_no_sep(k, '|');
    }
    assert(seq![k].drop_last() =~= Seq::<Seq<char>>::empty());
    assert(seq![k].last() == k);
    assert(concat_contents(snap, Seq::<Seq<char>>::empty()) == Seq::<char>::empty());
    assert(concat_contents(snap, seq![k]) =~= content_of(snap, k));
}

/// Round trip: every key the enumeration lists is known to the snapshot, and
/// a query naming just that key fetches exactly the content stored under it.
pub proof fn lemma_round_trip(snap: Snapshot, k: Seq<char>)
    requires
        snap.key_seq().contains(k),
        k.len() > 0,
        !k.contains(','),
        !k.contains('|'),
    ensures
        snap.spec_get(k) == Some(fetch_spec(snap, k)),
{
    let i = choose|i: int| 0 <= i < snap.key_seq().len() && snap.key_seq()[i] == k;
    assert(snap.entries_view()[i].0 == k);
    crate::snapshot::lemma_seq_get_found(snap.entries_view(), k);
    lemma_single_key_fetch(snap, k);
}

/// Fetching is idempotent: the response body is a function of the snapshot
/// and the query alone, so two fetches of the same query against an unchanged
/// snapshot return identical output.  `fetch` ensures its result equals
/// `fetch_spec`, so any two of its results for the same arguments are equal.
pub proof fn lemma_fetch_idempotent(snap: Snapshot, q: Seq<char>, r1: Seq<char>, r2: Seq<char>)
    requires
        r1 == fetch_spec(snap, q),
        r2 == fetch_spec(snap, q),
    ensures
        r1 == r2,
{
}

/// The empty query names no keys and fetches the empty body, whatever the
/// snapshot holds.
pub proof fn lemma_empty_query(snap: Snapshot)
    ensures
        expand_query(Seq::<char>::empty()) == Seq::<Seq<char>>::empty(),
        fetch_spec(snap, Seq::<char>::empty()) == Seq::<char>::empty(),
{
    let e = Seq::<char>::empty();
    assert(!e.contains(','));
    lemma_single_fragment(e);
    assert(expand_fragment(e) == Seq::<Seq<char>>::empty());
    assert(concat_contents(snap, Seq::<Seq<char>>::empty()) == Seq::<char>::empty());
}

} // verus!
